//! The lexer: from source text to positioned tokens.
//!
//! The source is held as a vector of classified characters. What the lexer
//! does is stated by a handful of spec functions over that vector
//! ([`skip_blank`], [`scan_at`], [`tokens_from`]): where the next token
//! starts, which token it is, where it ends, and the whole token list of an
//! input.

use vstd::prelude::*;
use crate::ast::views;
use crate::text::{chars_of, decimal_text, push_decimal, same_text};

verus! {

/// What `char::is_whitespace` answers for `c`: whether `c` has the Unicode
/// property White_Space.
pub uninterp spec fn char_is_whitespace(c: char) -> bool;

/// What `char::is_alphanumeric` answers for `c`: whether `c` is alphabetic or
/// numeric in the sense of Unicode.
pub uninterp spec fn char_is_alphanumeric(c: char) -> bool;

/// What the standard `Debug` formatting writes for `Some(c)`, such as
/// `Some('x')` or `Some('\n')`.
pub uninterp spec fn debug_of_some(c: char) -> Seq<char>;

/// `char::is_whitespace` from the standard library. Its answer depends on the
/// character alone and is referred to as [`char_is_whitespace`].
pub assume_specification[ char::is_whitespace ](c: char) -> (r: bool)
    ensures
        r == char_is_whitespace(c),
;

/// `char::is_alphanumeric` from the standard library. Its answer depends on
/// the character alone and is referred to as [`char_is_alphanumeric`].
pub assume_specification[ char::is_alphanumeric ](c: char) -> (r: bool)
    ensures
        r == char_is_alphanumeric(c),
;

/// The standard `Debug` formatting of `Some(c)`. The text depends on the
/// character alone and is referred to as [`debug_of_some`].
#[verifier::external_body]
fn debug_some(c: char) -> (r: String)
    ensures
        r@ == debug_of_some(c),
{
    format!("{:?}", Some(c))
}

/// A token of the language.
#[derive(Debug, PartialEq)]
pub enum Token {
    Roles,
    State,
    Sequence,
    Group,
    Identifier(String),
    LeftBrace,
    RightBrace,
    LeftBracket,
    RightBracket,
    Colon,
    Arrow,
    Comma,
    Eof,
}

/// Model of a [`Token`].
pub enum TokenView {
    Roles,
    State,
    Sequence,
    Group,
    Identifier(Seq<char>),
    LeftBrace,
    RightBrace,
    LeftBracket,
    RightBracket,
    Colon,
    Arrow,
    Comma,
    Eof,
}

/// How a token is written in messages: keywords and symbols as in the source,
/// an identifier by its name, the end of input as `EOF`.
pub open spec fn token_text(token: TokenView) -> Seq<char> {
    match token {
        TokenView::Roles => "roles"@,
        TokenView::State => "state"@,
        TokenView::Sequence => "sequence"@,
        TokenView::Group => "group"@,
        TokenView::Identifier(name) => name,
        TokenView::LeftBrace => "{"@,
        TokenView::RightBrace => "}"@,
        TokenView::LeftBracket => "["@,
        TokenView::RightBracket => "]"@,
        TokenView::Colon => ":"@,
        TokenView::Arrow => "->"@,
        TokenView::Comma => ","@,
        TokenView::Eof => "EOF"@,
    }
}

impl View for Token {
    type V = TokenView;

    open spec fn view(&self) -> TokenView {
        match self {
            Token::Roles => TokenView::Roles,
            Token::State => TokenView::State,
            Token::Sequence => TokenView::Sequence,
            Token::Group => TokenView::Group,
            Token::Identifier(name) => TokenView::Identifier(name@),
            Token::LeftBrace => TokenView::LeftBrace,
            Token::RightBrace => TokenView::RightBrace,
            Token::LeftBracket => TokenView::LeftBracket,
            Token::RightBracket => TokenView::RightBracket,
            Token::Colon => TokenView::Colon,
            Token::Arrow => TokenView::Arrow,
            Token::Comma => TokenView::Comma,
            Token::Eof => TokenView::Eof,
        }
    }
}

impl Clone for Token {
    fn clone(&self) -> (r: Self)
        ensures
            r@ == self@,
    {
        match self {
            Token::Roles => Token::Roles,
            Token::State => Token::State,
            Token::Sequence => Token::Sequence,
            Token::Group => Token::Group,
            Token::Identifier(name) => Token::Identifier(name.clone()),
            Token::LeftBrace => Token::LeftBrace,
            Token::RightBrace => Token::RightBrace,
            Token::LeftBracket => Token::LeftBracket,
            Token::RightBracket => Token::RightBracket,
            Token::Colon => Token::Colon,
            Token::Arrow => Token::Arrow,
            Token::Comma => Token::Comma,
            Token::Eof => Token::Eof,
        }
    }
}

impl Token {
    /// The token as it is written in messages.
    pub fn to_string(&self) -> (r: String)
        ensures
            r@ == token_text(self@),
    {
        match self {
            Token::Roles => String::from_str("roles"),
            Token::State => String::from_str("state"),
            Token::Sequence => String::from_str("sequence"),
            Token::Group => String::from_str("group"),
            Token::Identifier(name) => name.clone(),
            Token::LeftBrace => String::from_str("{"),
            Token::RightBrace => String::from_str("}"),
            Token::LeftBracket => String::from_str("["),
            Token::RightBracket => String::from_str("]"),
            Token::Colon => String::from_str(":"),
            Token::Arrow => String::from_str("->"),
            Token::Comma => String::from_str(","),
            Token::Eof => String::from_str("EOF"),
        }
    }

    /// Whether two tokens are the same token; identifiers also have to agree
    /// in their names.
    pub fn same(&self, other: &Token) -> (r: bool)
        ensures
            r == (self@ == other@),
    {
        match (self, other) {
            (Token::Roles, Token::Roles) => true,
            (Token::State, Token::State) => true,
            (Token::Sequence, Token::Sequence) => true,
            (Token::Group, Token::Group) => true,
            (Token::Identifier(a), Token::Identifier(b)) => same_text(a.as_str(), b.as_str()),
            (Token::LeftBrace, Token::LeftBrace) => true,
            (Token::RightBrace, Token::RightBrace) => true,
            (Token::LeftBracket, Token::LeftBracket) => true,
            (Token::RightBracket, Token::RightBracket) => true,
            (Token::Colon, Token::Colon) => true,
            (Token::Arrow, Token::Arrow) => true,
            (Token::Comma, Token::Comma) => true,
            (Token::Eof, Token::Eof) => true,
            _ => false,
        }
    }
}

/// A place in the source: line and column, both counted from one.
#[derive(Debug, Clone, Copy, PartialEq)]
pub struct Position {
    pub line: usize,
    pub column: usize,
}

/// How a position is written in messages.
pub open spec fn position_text(position: Position) -> Seq<char> {
    "line "@ + decimal_text(position.line as nat) + ", column "@ + decimal_text(
        position.column as nat,
    )
}

impl Position {
    /// The position as it is written in messages, as in `line 3, column 14`.
    pub fn to_string(&self) -> (r: String)
        ensures
            r@ == position_text(*self),
    {
        let mut out = String::from_str("line ");
        push_decimal(&mut out, self.line);
        out.append(", column ");
        push_decimal(&mut out, self.column);
        out
    }
}

/// A token together with the position of its first character.
#[derive(Debug, PartialEq)]
pub struct PositionedToken {
    pub token: Token,
    pub position: Position,
}

/// Model of a [`PositionedToken`].
pub struct PositionedTokenView {
    pub token: TokenView,
    pub position: Position,
}

impl View for PositionedToken {
    type V = PositionedTokenView;

    open spec fn view(&self) -> PositionedTokenView {
        PositionedTokenView { token: self.token@, position: self.position }
    }
}

impl Clone for PositionedToken {
    fn clone(&self) -> (r: Self)
        ensures
            r@ == self@,
    {
        PositionedToken { token: self.token.clone(), position: self.position }
    }
}

/// A lexical error: what was wrong, and where the offending token starts.
#[derive(Debug, PartialEq)]
pub struct LexError {
    pub message: String,
    pub position: Position,
}

/// Model of a [`LexError`].
pub struct LexErrorView {
    pub message: Seq<char>,
    pub position: Position,
}

/// The message for a character that starts no token.
pub open spec fn unexpected_message(c: char) -> Seq<char> {
    "Unexpected character: '"@.push(c) + "'"@
}

/// The message for a `-` that is not followed by `>`; `found` describes what
/// follows instead.
pub open spec fn arrow_message(found: Seq<char>) -> Seq<char> {
    "Expected '>' after '-', got "@ + found
}

impl View for LexError {
    type V = LexErrorView;

    open spec fn view(&self) -> LexErrorView {
        LexErrorView { message: self.message@, position: self.position }
    }
}

impl Clone for LexError {
    fn clone(&self) -> (r: Self)
        ensures
            r@ == self@,
    {
        LexError { message: self.message.clone(), position: self.position }
    }
}

impl LexError {
    /// The error for a character that starts no token.
    pub fn unexpected_character(c: char, position: Position) -> (r: LexError)
        ensures
            r@ == (LexErrorView { message: unexpected_message(c), position }),
    {
        let mut message = String::from_str("Unexpected character: '");
        message.push(c);
        message.append("'");
        LexError { message, position }
    }

    /// The error for a `-` that is not followed by `>`; `found` describes
    /// what follows instead.
    pub fn malformed_arrow(found: &str, position: Position) -> (r: LexError)
        ensures
            r@ == (LexErrorView { message: arrow_message(found@), position }),
    {
        let mut message = String::from_str("Expected '>' after '-', got ");
        message.append(found);
        LexError { message, position }
    }

    /// The error as it is shown to the user.
    pub fn to_string(&self) -> (r: String)
        ensures
            r@ == "Lexer error at "@ + position_text(self.position) + ": "@ + self.message@,
    {
        let mut out = String::from_str("Lexer error at ");
        let place = self.position.to_string();
        out.append(place.as_str());
        out.append(": ");
        out.append(self.message.as_str());
        out
    }
}

/// One character of the source together with the two facts about it that
/// the lexer goes by.
#[derive(Debug, Clone, Copy, PartialEq)]
pub struct SourceChar {
    pub ch: char,
    pub whitespace: bool,
    pub alphanumeric: bool,
}

impl SourceChar {
    /// The character `c`, classified by the standard library.
    pub fn of(c: char) -> (r: SourceChar)
        ensures
            r == classify(c),
    {
        SourceChar {
            ch: c,
            whitespace: c.is_whitespace(),
            alphanumeric: c.is_alphanumeric(),
        }
    }
}

/// A character classified as the standard library classifies it.
pub open spec fn classify(c: char) -> SourceChar {
    SourceChar {
        ch: c,
        whitespace: char_is_whitespace(c),
        alphanumeric: char_is_alphanumeric(c),
    }
}

/// A text classified character by character.
pub open spec fn classified(text: Seq<char>) -> Seq<SourceChar> {
    text.map_values(|c: char| classify(c))
}

/// The characters of a classified source.
pub open spec fn chars(src: Seq<SourceChar>) -> Seq<char> {
    src.map_values(|c: SourceChar| c.ch)
}

/// The line of offset `p`: one more than the number of newlines before it.
pub open spec fn line_at(src: Seq<SourceChar>, p: int) -> int
    decreases p,
{
    if p <= 0 {
        1
    } else if src[p - 1].ch == '\n' {
        line_at(src, p - 1) + 1
    } else {
        line_at(src, p - 1)
    }
}

/// The column of offset `p`: one more than the number of characters between
/// the last newline before `p` (or the start) and `p`.
pub open spec fn column_at(src: Seq<SourceChar>, p: int) -> int
    decreases p,
{
    if p <= 0 {
        1
    } else if src[p - 1].ch == '\n' {
        1
    } else {
        column_at(src, p - 1) + 1
    }
}

/// The position of offset `p`.
pub open spec fn position_at(src: Seq<SourceChar>, p: int) -> Position {
    Position { line: line_at(src, p) as usize, column: column_at(src, p) as usize }
}

/// The offset of the first newline at or after `p`, or the end of the source.
pub open spec fn line_end(src: Seq<SourceChar>, p: int) -> int
    decreases src.len() - p,
{
    if 0 <= p < src.len() && src[p].ch != '\n' {
        line_end(src, p + 1)
    } else {
        p
    }
}

/// Whether a `//` comment starts at `p`.
pub open spec fn starts_comment(src: Seq<SourceChar>, p: int) -> bool {
    0 <= p && p + 1 < src.len() && src[p].ch == '/' && src[p + 1].ch == '/'
}

/// Where the next token starts when lexing resumes at `p`: whitespace is
/// skipped, and so is each `//` comment up to (not including) the newline
/// that ends it.
pub open spec fn skip_blank(src: Seq<SourceChar>, p: int) -> int
    decreases src.len() - p,
    via skip_blank_decreases
{
    if 0 <= p < src.len() && src[p].whitespace {
        skip_blank(src, p + 1)
    } else if starts_comment(src, p) {
        skip_blank(src, line_end(src, p + 2))
    } else {
        p
    }
}

#[via_fn]
proof fn skip_blank_decreases(src: Seq<SourceChar>, p: int) {
    if starts_comment(src, p) {
        lemma_line_end_bounds(src, p + 2);
    }
}

/// `line_end` moves forward, and stays within the source.
pub proof fn lemma_line_end_bounds(src: Seq<SourceChar>, p: int)
    requires
        0 <= p <= src.len(),
    ensures
        p <= line_end(src, p) <= src.len(),
    decreases src.len() - p,
{
    if p < src.len() && src[p].ch != '\n' {
        lemma_line_end_bounds(src, p + 1);
    }
}

/// `skip_blank` moves forward, and stays within the source.
pub proof fn lemma_skip_blank_bounds(src: Seq<SourceChar>, p: int)
    requires
        0 <= p <= src.len(),
    ensures
        p <= skip_blank(src, p) <= src.len(),
    decreases src.len() - p,
{
    if p < src.len() && src[p].whitespace {
        lemma_skip_blank_bounds(src, p + 1);
    } else if starts_comment(src, p) {
        lemma_line_end_bounds(src, p + 2);
        lemma_skip_blank_bounds(src, line_end(src, p + 2));
    }
}

/// Whether `c` is a character of words (keywords and identifiers): an
/// alphanumeric character or the underscore.
pub open spec fn is_word_char(c: SourceChar) -> bool {
    c.alphanumeric || c.ch == '_'
}

/// The end of the longest run of word characters that starts at `p`.
pub open spec fn word_end(src: Seq<SourceChar>, p: int) -> int
    decreases src.len() - p,
{
    if 0 <= p < src.len() && is_word_char(src[p]) {
        word_end(src, p + 1)
    } else {
        p
    }
}

/// `word_end` moves forward, and stays within the source.
pub proof fn lemma_word_end_bounds(src: Seq<SourceChar>, p: int)
    requires
        0 <= p <= src.len(),
    ensures
        p <= word_end(src, p) <= src.len(),
    decreases src.len() - p,
{
    if p < src.len() && is_word_char(src[p]) {
        lemma_word_end_bounds(src, p + 1);
    }
}

/// The token for a word: one of the four keywords, which are matched with
/// regard to case, or else an identifier.
pub open spec fn word_token(word: Seq<char>) -> TokenView {
    if word == "roles"@ {
        TokenView::Roles
    } else if word == "state"@ {
        TokenView::State
    } else if word == "sequence"@ {
        TokenView::Sequence
    } else if word == "group"@ {
        TokenView::Group
    } else {
        TokenView::Identifier(word)
    }
}

/// The token that the single character `c` stands for, if any.
pub open spec fn symbol_token(c: char) -> Option<TokenView> {
    if c == '{' {
        Some(TokenView::LeftBrace)
    } else if c == '}' {
        Some(TokenView::RightBrace)
    } else if c == '[' {
        Some(TokenView::LeftBracket)
    } else if c == ']' {
        Some(TokenView::RightBracket)
    } else if c == ':' {
        Some(TokenView::Colon)
    } else if c == ',' {
        Some(TokenView::Comma)
    } else {
        None
    }
}

/// The character at offset `p`, if there is one.
pub open spec fn char_at(src: Seq<SourceChar>, p: int) -> Option<char> {
    if 0 <= p < src.len() {
        Some(src[p].ch)
    } else {
        None
    }
}

/// What is found at a token start: a token or the message of a lexical error,
/// and the offset at which the lexer stands afterwards.
pub struct Scan {
    pub outcome: Result<TokenView, Seq<char>>,
    pub next: int,
}

/// How the error for a `-` describes what follows it: the end of input as
/// `None`, a character as the `Debug` formatting writes `Some` of it.
pub open spec fn following(next: Option<char>) -> Seq<char> {
    match next {
        Some(c) => debug_of_some(c),
        None => "None"@,
    }
}

/// What is found at the token start `q`, given the description `found` of
/// what follows `q`.
///
/// - the end of the source gives `Eof`;
/// - one of `{ } [ ] : ,` gives its symbol;
/// - `-` gives the arrow if `>` follows, and is an error otherwise, with the
///   `-` consumed;
/// - a word character gives the word that extends over the longest run of
///   word characters;
/// - any other character is an error, and is not consumed.
pub open spec fn scan_with(src: Seq<SourceChar>, q: int, found: Seq<char>) -> Scan {
    if !(0 <= q < src.len()) {
        Scan { outcome: Ok(TokenView::Eof), next: q }
    } else if symbol_token(src[q].ch) is Some {
        Scan { outcome: Ok(symbol_token(src[q].ch)->0), next: q + 1 }
    } else if src[q].ch == '-' {
        if char_at(src, q + 1) == Some('>') {
            Scan { outcome: Ok(TokenView::Arrow), next: q + 2 }
        } else {
            Scan { outcome: Err(arrow_message(found)), next: q + 1 }
        }
    } else if is_word_char(src[q]) {
        let end = word_end(src, q);
        Scan { outcome: Ok(word_token(chars(src).subrange(q, end))), next: end }
    } else {
        Scan { outcome: Err(unexpected_message(src[q].ch)), next: q }
    }
}

/// What is found at the token start `q`.
pub open spec fn scan_at(src: Seq<SourceChar>, q: int) -> Scan {
    scan_with(src, q, following(char_at(src, q + 1)))
}

/// A token never ends before it starts, nor beyond the source; a token other
/// than `Eof` is not empty.
pub proof fn lemma_scan_bounds(src: Seq<SourceChar>, q: int, found: Seq<char>)
    requires
        0 <= q <= src.len(),
    ensures
        q <= scan_with(src, q, found).next <= src.len(),
        scan_with(src, q, found).outcome is Ok && scan_with(src, q, found).outcome
            != Ok::<TokenView, Seq<char>>(TokenView::Eof) ==> q < scan_with(src, q, found).next,
{
    if q < src.len() {
        lemma_word_end_bounds(src, q + 1);
    }
}

/// The tokens of the source from offset `p` on, up to and including the one
/// `Eof`, or the first lexical error.
pub open spec fn tokens_from(src: Seq<SourceChar>, p: int) -> Result<
    Seq<PositionedTokenView>,
    LexErrorView,
>
    decreases src.len() - p,
    via tokens_from_decreases
{
    if !(0 <= p <= src.len()) {
        Ok(Seq::empty())
    } else {
        let q = skip_blank(src, p);
        let scan = scan_at(src, q);
        let position = position_at(src, q);
        match scan.outcome {
            Err(message) => Err(LexErrorView { message, position }),
            Ok(TokenView::Eof) => Ok(seq![PositionedTokenView { token: TokenView::Eof, position }]),
            Ok(token) => match tokens_from(src, scan.next) {
                Ok(rest) => Ok(seq![PositionedTokenView { token, position }] + rest),
                Err(e) => Err(e),
            },
        }
    }
}

#[via_fn]
proof fn tokens_from_decreases(src: Seq<SourceChar>, p: int) {
    if 0 <= p <= src.len() {
        lemma_skip_blank_bounds(src, p);
        let q = skip_blank(src, p);
        lemma_scan_bounds(src, q, following(char_at(src, q + 1)));
    }
}

/// A token list ends with `Eof`, and holds no other `Eof`.
pub proof fn law_tokens_end_with_one_eof(src: Seq<SourceChar>, p: int)
    requires
        0 <= p <= src.len(),
        tokens_from(src, p) is Ok,
    ensures
        tokens_from(src, p)->Ok_0.len() >= 1,
        tokens_from(src, p)->Ok_0.last().token == TokenView::Eof,
        forall|i: int|
            0 <= i < tokens_from(src, p)->Ok_0.len() - 1 ==> (#[trigger] tokens_from(
                src,
                p,
            )->Ok_0[i]).token != TokenView::Eof,
    decreases src.len() - p,
{
    let q = skip_blank(src, p);
    lemma_skip_blank_bounds(src, p);
    let scan = scan_at(src, q);
    lemma_scan_bounds(src, q, following(char_at(src, q + 1)));
    match scan.outcome {
        Ok(TokenView::Eof) => {},
        Ok(token) => {
            law_tokens_end_with_one_eof(src, scan.next);
            let rest = tokens_from(src, scan.next)->Ok_0;
            let all = tokens_from(src, p)->Ok_0;
            assert(all =~= seq![PositionedTokenView { token, position: position_at(src, q) }]
                + rest);
            assert forall|i: int| 0 <= i < all.len() - 1 implies (#[trigger] all[i]).token
                != TokenView::Eof by {
                if i > 0 {
                    assert(all[i] == rest[i - 1]);
                }
            }
        },
        Err(_) => {},
    }
}

/// The order of positions: by line, and within a line by column.
pub open spec fn position_precedes(a: Position, b: Position) -> bool {
    a.line < b.line || (a.line == b.line && a.column < b.column)
}

/// A later offset has a later position.
pub proof fn lemma_positions_grow(src: Seq<SourceChar>, p: int, q: int)
    requires
        0 <= p < q,
    ensures
        line_at(src, p) < line_at(src, q) || (line_at(src, p) == line_at(src, q) && column_at(
            src,
            p,
        ) < column_at(src, q)),
    decreases q - p,
{
    if p < q - 1 {
        lemma_positions_grow(src, p, q - 1);
    }
}

/// Every token of a token list stands at an offset of the source, at or
/// behind the offset from which the list was read.
pub open spec fn stands_in(src: Seq<SourceChar>, p: int, token: PositionedTokenView) -> bool {
    exists|o: int| p <= o <= src.len() && token.position == #[trigger] position_at(src, o)
}

/// The tokens of a token list stand in the order of the source: each at a
/// position strictly behind the position of the token before it.
pub proof fn law_token_positions_grow(src: Seq<SourceChar>, p: int)
    requires
        0 <= p <= src.len(),
        src.len() < usize::MAX,
        tokens_from(src, p) is Ok,
    ensures
        forall|i: int|
            0 <= i < tokens_from(src, p)->Ok_0.len() ==> stands_in(
                src,
                p,
                #[trigger] tokens_from(src, p)->Ok_0[i],
            ),
        forall|i: int, j: int|
            0 <= i < j < tokens_from(src, p)->Ok_0.len() ==> position_precedes(
                tokens_from(src, p)->Ok_0[i].position,
                tokens_from(src, p)->Ok_0[j].position,
            ),
    decreases src.len() - p,
{
    let q = skip_blank(src, p);
    lemma_skip_blank_bounds(src, p);
    let scan = scan_at(src, q);
    lemma_scan_bounds(src, q, following(char_at(src, q + 1)));
    let all = tokens_from(src, p)->Ok_0;
    let first = PositionedTokenView { token: scan.outcome->Ok_0, position: position_at(src, q) };
    match scan.outcome {
        Ok(TokenView::Eof) => {
            assert(all =~= seq![first]);
            assert(stands_in(src, p, all[0]));
        },
        Ok(token) => {
            law_token_positions_grow(src, scan.next);
            let rest = tokens_from(src, scan.next)->Ok_0;
            assert(all =~= seq![first] + rest);
            assert forall|i: int| 0 <= i < all.len() implies stands_in(src, p, #[trigger] all[i]) by {
                if i == 0 {
                    assert(all[0].position == position_at(src, q));
                } else {
                    assert(all[i] == rest[i - 1]);
                    assert(stands_in(src, scan.next, rest[i - 1]));
                    let o = choose|o: int|
                        scan.next <= o <= src.len() && rest[i - 1].position == #[trigger] position_at(
                            src,
                            o,
                        );
                    assert(p <= o <= src.len() && all[i].position == position_at(src, o));
                }
            }
            assert forall|i: int, j: int| 0 <= i < j < all.len() implies position_precedes(
                all[i].position,
                all[j].position,
            ) by {
                assert(all[j] == rest[j - 1]);
                if i == 0 {
                    assert(stands_in(src, scan.next, rest[j - 1]));
                    let o = choose|o: int|
                        scan.next <= o <= src.len() && rest[j - 1].position == #[trigger] position_at(
                            src,
                            o,
                        );
                    lemma_positions_grow(src, q, o);
                    lemma_position_bounds(src, q);
                    lemma_position_bounds(src, o);
                } else {
                    assert(all[i] == rest[i - 1]);
                }
            }
        },
        Err(_) => {},
    }
}

/// `word` is a word of the source: a run of word characters that is not
/// empty and cannot be extended to the right.
pub open spec fn is_word_of(src: Seq<SourceChar>, word: Seq<char>) -> bool {
    exists|a: int, b: int|
        {
            &&& 0 <= a < b <= src.len()
            &&& word == #[trigger] chars(src).subrange(a, b)
            &&& forall|k: int| a <= k < b ==> is_word_char(#[trigger] src[k])
            &&& (b == src.len() || !is_word_char(src[b]))
        }
}

/// From `p` to `word_end` there are word characters only, and `word_end` is
/// not one.
pub proof fn lemma_word_end_is_run(src: Seq<SourceChar>, p: int)
    requires
        0 <= p <= src.len(),
    ensures
        forall|k: int| p <= k < word_end(src, p) ==> is_word_char(#[trigger] src[k]),
        word_end(src, p) == src.len() || !is_word_char(src[word_end(src, p)]),
    decreases src.len() - p,
{
    if p < src.len() && is_word_char(src[p]) {
        lemma_word_end_is_run(src, p + 1);
    }
}

/// Every identifier of a token list is a word of the source, and none is
/// spelt like a keyword.
pub proof fn law_identifiers_are_words(src: Seq<SourceChar>, p: int)
    requires
        0 <= p <= src.len(),
        tokens_from(src, p) is Ok,
    ensures
        forall|i: int|
            0 <= i < tokens_from(src, p)->Ok_0.len() && (#[trigger] tokens_from(
                src,
                p,
            )->Ok_0[i]).token is Identifier ==> {
                let name = tokens_from(src, p)->Ok_0[i].token->Identifier_0;
                &&& is_word_of(src, name)
                &&& name != "roles"@
                &&& name != "state"@
                &&& name != "sequence"@
                &&& name != "group"@
            },
    decreases src.len() - p,
{
    let q = skip_blank(src, p);
    lemma_skip_blank_bounds(src, p);
    let scan = scan_at(src, q);
    lemma_scan_bounds(src, q, following(char_at(src, q + 1)));
    let all = tokens_from(src, p)->Ok_0;
    match scan.outcome {
        Ok(TokenView::Eof) => {},
        Ok(token) => {
            law_identifiers_are_words(src, scan.next);
            let rest = tokens_from(src, scan.next)->Ok_0;
            assert(all =~= seq![PositionedTokenView { token, position: position_at(src, q) }]
                + rest);
            assert forall|i: int| 0 <= i < all.len() && (#[trigger] all[i]).token is Identifier implies {
                let name = all[i].token->Identifier_0;
                &&& is_word_of(src, name)
                &&& name != "roles"@
                &&& name != "state"@
                &&& name != "sequence"@
                &&& name != "group"@
            } by {
                if i == 0 {
                    lemma_word_end_is_run(src, q);
                    let end = word_end(src, q);
                    assert(all[0].token->Identifier_0 == chars(src).subrange(q, end));
                } else {
                    assert(all[i] == rest[i - 1]);
                }
            }
        },
        Err(_) => {},
    }
}

/// Where lexing from offset `p` stops: behind the `Eof` token, or where the
/// first lexical error leaves the lexer.
pub open spec fn lexing_stop(src: Seq<SourceChar>, p: int) -> int
    decreases src.len() - p,
    via lexing_stop_decreases
{
    if !(0 <= p <= src.len()) {
        p
    } else {
        let scan = scan_at(src, skip_blank(src, p));
        match scan.outcome {
            Err(_) => scan.next,
            Ok(TokenView::Eof) => scan.next,
            Ok(_) => lexing_stop(src, scan.next),
        }
    }
}

#[via_fn]
proof fn lexing_stop_decreases(src: Seq<SourceChar>, p: int) {
    if 0 <= p <= src.len() {
        lemma_skip_blank_bounds(src, p);
        let q = skip_blank(src, p);
        lemma_scan_bounds(src, q, following(char_at(src, q + 1)));
    }
}

/// The end of the longest run of whitespace that starts at `p`.
pub open spec fn space_end(src: Seq<SourceChar>, p: int) -> int
    decreases src.len() - p,
{
    if 0 <= p < src.len() && src[p].whitespace {
        space_end(src, p + 1)
    } else {
        p
    }
}

/// Skipping blanks may begin with skipping a run of whitespace.
pub proof fn lemma_skip_blank_after_space(src: Seq<SourceChar>, p: int)
    requires
        0 <= p <= src.len(),
    ensures
        skip_blank(src, p) == skip_blank(src, space_end(src, p)),
        p <= space_end(src, p) <= src.len(),
        space_end(src, p) < src.len() ==> !src[space_end(src, p)].whitespace,
    decreases src.len() - p,
{
    if p < src.len() && src[p].whitespace {
        lemma_skip_blank_after_space(src, p + 1);
    }
}

/// Lines and columns are at least one and grow by at most one per character.
pub proof fn lemma_position_bounds(src: Seq<SourceChar>, p: int)
    requires
        0 <= p,
    ensures
        1 <= line_at(src, p) <= p + 1,
        1 <= column_at(src, p) <= p + 1,
    decreases p,
{
    if p > 0 {
        lemma_position_bounds(src, p - 1);
    }
}

/// The lexer: a classified source and the place up to which it has been read.
pub struct Lexer {
    input: Vec<SourceChar>,
    position: usize,
    line: usize,
    column: usize,
}

impl Lexer {
    /// The classified source.
    pub closed spec fn source(&self) -> Seq<SourceChar> {
        self.input@
    }

    /// The number of characters read so far.
    pub closed spec fn offset(&self) -> int {
        self.position as int
    }

    /// The offset lies within the source, and the line and column that the
    /// lexer keeps are those of the offset.
    pub closed spec fn wf(&self) -> bool {
        &&& self.position <= self.input.len()
        &&& self.input.len() < usize::MAX
        &&& self.line == line_at(self.input@, self.position as int)
        &&& self.column == column_at(self.input@, self.position as int)
    }

    /// A lexer at the start of `input`, each character classified by the
    /// standard library.
    pub fn new(input: &str) -> (r: Lexer)
        requires
            input@.len() < usize::MAX,
        ensures
            r.wf(),
            r.source() == classified(input@),
            r.offset() == 0,
    {
        let text = chars_of(input);
        let mut items: Vec<SourceChar> = Vec::new();
        let mut i: usize = 0;
        while i < text.len()
            invariant
                i <= text.len(),
                text@ == input@,
                items.len() == i,
                items@ == classified(text@.take(i as int)),
            decreases text.len() - i,
        {
            let ghost before = items@;
            items.push(SourceChar::of(text[i]));
            assert forall|j: int| 0 <= j < i + 1 implies items@[j] == classify(text@[j]) by {
                if j < i {
                    assert(before[j] == classified(text@.take(i as int))[j]);
                }
            }
            assert(items@ =~= classified(text@.take(i + 1)));
            i += 1;
        }
        assert(text@.take(i as int) =~= text@);
        Lexer::from_classified(items)
    }

    /// A lexer at the start of a source that has been classified already.
    pub fn from_classified(input: Vec<SourceChar>) -> (r: Lexer)
        requires
            input.len() < usize::MAX,
        ensures
            r.wf(),
            r.source() == input@,
            r.offset() == 0,
    {
        Lexer { input, position: 0, line: 1, column: 1 }
    }

    fn current_position(&self) -> (r: Position)
        requires
            self.wf(),
        ensures
            r == position_at(self.source(), self.offset()),
    {
        Position { line: self.line, column: self.column }
    }

    fn peek(&self) -> (r: Option<SourceChar>)
        requires
            self.wf(),
        ensures
            r == (if self.offset() < self.source().len() {
                Some(self.source()[self.offset()])
            } else {
                None
            }),
    {
        if self.position < self.input.len() {
            Some(self.input[self.position])
        } else {
            None
        }
    }

    fn peek_next(&self) -> (r: Option<SourceChar>)
        requires
            self.wf(),
        ensures
            r == (if self.offset() + 1 < self.source().len() {
                Some(self.source()[self.offset() + 1])
            } else {
                None
            }),
    {
        if self.position + 1 < self.input.len() {
            Some(self.input[self.position + 1])
        } else {
            None
        }
    }

    fn advance(&mut self) -> (r: Option<SourceChar>)
        requires
            old(self).wf(),
        ensures
            final(self).wf(),
            final(self).source() == old(self).source(),
            r == (if old(self).offset() < old(self).source().len() {
                Some(old(self).source()[old(self).offset()])
            } else {
                None
            }),
            final(self).offset() == old(self).offset() + (if r is Some {
                1int
            } else {
                0int
            }),
    {
        if self.position < self.input.len() {
            let c = self.input[self.position];
            proof {
                lemma_position_bounds(self.input@, self.position as int);
            }
            self.position += 1;
            if c.ch == '\n' {
                self.line += 1;
                self.column = 1;
            } else {
                self.column += 1;
            }
            Some(c)
        } else {
            None
        }
    }

    fn skip_whitespace(&mut self)
        requires
            old(self).wf(),
        ensures
            final(self).wf(),
            final(self).source() == old(self).source(),
            final(self).offset() == space_end(old(self).source(), old(self).offset()),
    {
        while self.position < self.input.len() && self.input[self.position].whitespace
            invariant
                self.wf(),
                self.source() == old(self).source(),
                old(self).offset() <= self.offset(),
                space_end(self.source(), self.offset()) == space_end(
                    old(self).source(),
                    old(self).offset(),
                ),
            decreases self.input.len() - self.position,
        {
            self.advance();
        }
    }

    fn skip_comment(&mut self)
        requires
            old(self).wf(),
            starts_comment(old(self).source(), old(self).offset()),
        ensures
            final(self).wf(),
            final(self).source() == old(self).source(),
            final(self).offset() == line_end(old(self).source(), old(self).offset() + 2),
    {
        self.advance();
        self.advance();
        while self.position < self.input.len() && self.input[self.position].ch != '\n'
            invariant
                self.wf(),
                self.source() == old(self).source(),
                line_end(self.source(), self.offset()) == line_end(
                    old(self).source(),
                    old(self).offset() + 2,
                ),
            decreases self.input.len() - self.position,
        {
            self.advance();
        }
    }

    fn lex_identifier(&mut self) -> (r: Token)
        requires
            old(self).wf(),
        ensures
            final(self).wf(),
            final(self).source() == old(self).source(),
            final(self).offset() == word_end(old(self).source(), old(self).offset()),
            r@ == word_token(
                chars(old(self).source()).subrange(old(self).offset(), final(self).offset()),
            ),
    {
        let ghost start = self.position as int;
        let mut word = String::new();
        assert(word@ =~= chars(self.input@).subrange(start, start));
        while self.position < self.input.len() && (self.input[self.position].alphanumeric
            || self.input[self.position].ch == '_')
            invariant
                self.wf(),
                self.source() == old(self).source(),
                start <= self.offset(),
                start == old(self).offset(),
                word@ == chars(self.source()).subrange(start, self.offset()),
                word_end(self.source(), self.offset()) == word_end(self.source(), start),
            decreases self.input.len() - self.position,
        {
            word.push(self.input[self.position].ch);
            self.advance();
            assert(word@ =~= chars(self.input@).subrange(start, self.position as int));
        }
        if same_text(word.as_str(), "roles") {
            Token::Roles
        } else if same_text(word.as_str(), "state") {
            Token::State
        } else if same_text(word.as_str(), "sequence") {
            Token::Sequence
        } else if same_text(word.as_str(), "group") {
            Token::Group
        } else {
            Token::Identifier(word)
        }
    }

    /// Reads the next token: skips whitespace and comments, then reads one
    /// token or reports what stands in its place.
    pub fn next_token(&mut self) -> (r: Result<PositionedToken, LexError>)
        requires
            old(self).wf(),
        ensures
            final(self).wf(),
            final(self).source() == old(self).source(),
            ({
                let src = old(self).source();
                let q = skip_blank(src, old(self).offset());
                let scan = scan_at(src, q);
                &&& final(self).offset() == scan.next
                &&& match r {
                    Ok(t) => scan.outcome == Ok::<TokenView, Seq<char>>(t@.token) && t.position
                        == position_at(src, q),
                    Err(e) => scan.outcome == Err::<TokenView, Seq<char>>(e@.message)
                        && e.position == position_at(src, q),
                }
            }),
    {
        let ghost src = self.input@;
        let ghost start = self.position as int;
        loop
            invariant
                self.wf(),
                self.source() == src,
                start <= self.offset(),
                skip_blank(src, self.offset()) == skip_blank(src, start),
            ensures
                self.wf(),
                self.source() == src,
                self.offset() == skip_blank(src, start),
            decreases src.len() - self.offset(),
        {
            proof {
                lemma_skip_blank_after_space(src, self.position as int);
            }
            self.skip_whitespace();
            let first = self.peek();
            let second = self.peek_next();
            let comment = match (first, second) {
                (Some(a), Some(b)) => a.ch == '/' && b.ch == '/',
                _ => false,
            };
            if comment {
                proof {
                    lemma_line_end_bounds(src, self.position + 2);
                }
                self.skip_comment();
            } else {
                break ;
            }
        }
        let position = self.current_position();
        let c = match self.peek() {
            Some(c) => c,
            None => {
                return Ok(PositionedToken { token: Token::Eof, position });
            },
        };
        let token = if c.ch == '{' {
            self.advance();
            Token::LeftBrace
        } else if c.ch == '}' {
            self.advance();
            Token::RightBrace
        } else if c.ch == '[' {
            self.advance();
            Token::LeftBracket
        } else if c.ch == ']' {
            self.advance();
            Token::RightBracket
        } else if c.ch == ':' {
            self.advance();
            Token::Colon
        } else if c.ch == ',' {
            self.advance();
            Token::Comma
        } else if c.ch == '-' {
            self.advance();
            let next = match self.peek() {
                Some(n) => Some(n.ch),
                None => None,
            };
            match next {
                Some('>') => {
                    self.advance();
                    Token::Arrow
                },
                Some(other) => {
                    let found = debug_some(other);
                    return Err(LexError::malformed_arrow(found.as_str(), position));
                },
                None => {
                    return Err(LexError::malformed_arrow("None", position));
                },
            }
        } else if c.alphanumeric || c.ch == '_' {
            self.lex_identifier()
        } else {
            return Err(LexError::unexpected_character(c.ch, position));
        };
        Ok(PositionedToken { token, position })
    }

    /// Reads all tokens up to and including the end of input.
    pub fn tokenize(&mut self) -> (r: Result<Vec<PositionedToken>, LexError>)
        requires
            old(self).wf(),
        ensures
            final(self).wf(),
            final(self).source() == old(self).source(),
            final(self).offset() == lexing_stop(old(self).source(), old(self).offset()),
            match r {
                Ok(tokens) => tokens_from(old(self).source(), old(self).offset()) == Ok::<
                    Seq<PositionedTokenView>,
                    LexErrorView,
                >(views(tokens@)),
                Err(e) => tokens_from(old(self).source(), old(self).offset()) == Err::<
                    Seq<PositionedTokenView>,
                    LexErrorView,
                >(e@),
            },
    {
        let ghost src = self.input@;
        let ghost start = self.position as int;
        let mut tokens: Vec<PositionedToken> = Vec::new();
        loop
            invariant
                self.wf(),
                src == old(self).source(),
                start == old(self).offset(),
                self.source() == src,
                lexing_stop(src, self.offset()) == lexing_stop(src, start),
                tokens_from(src, start) == prepend(views(tokens@), tokens_from(src, self.offset())),
            decreases src.len() - self.offset(),
        {
            proof {
                lemma_skip_blank_bounds(src, self.position as int);
                let q = skip_blank(src, self.position as int);
                lemma_scan_bounds(src, q, following(char_at(src, q + 1)));
            }
            let ghost before = views(tokens@);
            let token = match self.next_token() {
                Ok(token) => token,
                Err(e) => {
                    return Err(e);
                },
            };
            let is_eof = match token.token {
                Token::Eof => true,
                _ => false,
            };
            tokens.push(token);
            assert(views(tokens@) =~= before.push(token@));
            if is_eof {
                assert(before + seq![token@] =~= before.push(token@));
                return Ok(tokens);
            }
            proof {
                match tokens_from(src, self.position as int) {
                    Ok(tail) => {
                        assert(before + (seq![token@] + tail) =~= before.push(token@) + tail);
                    },
                    Err(_) => {},
                }
            }
        }
    }
}

/// The outcome of lexing after `done` has been read and `rest` is what the
/// remainder gives.
pub open spec fn prepend(
    done: Seq<PositionedTokenView>,
    rest: Result<Seq<PositionedTokenView>, LexErrorView>,
) -> Result<Seq<PositionedTokenView>, LexErrorView> {
    match rest {
        Ok(tail) => Ok(done + tail),
        Err(e) => Err(e),
    }
}

} // verus!
