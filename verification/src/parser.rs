//! The parser: from the tokens of one unit to its syntax tree.
//!
//! The grammar, with `ID` for an identifier:
//!
//! ```text
//! file        ::= declaration*            (up to the end of input)
//! declaration ::= roles | state | sequence | group
//! roles       ::= "roles" names
//! state       ::= "state" ID [ "roles" names ]
//! sequence    ::= "sequence" ID ":" step+
//! step        ::= ID ":" state_ref "->" state_ref
//! state_ref   ::= ID "[" ID "]"
//! group       ::= "group" ID names
//! names       ::= "{" ID ("," ID)* "}"
//! ```
//!
//! A sequence takes steps for as long as the next token is an identifier.
//! Parsing stops at the first token that does not fit; there is no recovery.
//!
//! Each rule is a spec function from a token list and an offset to a
//! [`Parsed`] value: what the rule yields there or the message of the error,
//! and the offset behind what was consumed.

use vstd::prelude::*;
use crate::ast::{
    views, Declaration, DeclarationView, GroupDecl, GroupDeclView, MartialFile, MartialFileView,
    RolesDecl, RolesDeclView, Sequence, SequenceStep, SequenceStepView, SequenceView, State,
    StateRef, StateRefView, StateView,
};
use crate::lexer::{
    position_text, token_text, LexError, Position, PositionedToken, PositionedTokenView, Token,
    TokenView,
};
use crate::text::texts;

verus! {

/// A syntax error: what was expected and what was found, and where.
#[derive(Debug, PartialEq)]
pub struct ParseError {
    pub message: String,
    pub position: Position,
}

/// Model of a [`ParseError`].
pub struct ParseErrorView {
    pub message: Seq<char>,
    pub position: Position,
}

impl View for ParseError {
    type V = ParseErrorView;

    open spec fn view(&self) -> ParseErrorView {
        ParseErrorView { message: self.message@, position: self.position }
    }
}

impl Clone for ParseError {
    fn clone(&self) -> (r: Self)
        ensures
            r@ == self@,
    {
        ParseError { message: self.message.clone(), position: self.position }
    }
}

impl From<LexError> for ParseError {
    /// A lexical error as a syntax error: same message, same position.
    fn from(err: LexError) -> (r: ParseError) {
        ParseError { message: err.message, position: err.position }
    }
}

impl vstd::std_specs::convert::FromSpecImpl<LexError> for ParseError {
    open spec fn obeys_from_spec() -> bool {
        true
    }

    open spec fn from_spec(err: LexError) -> ParseError {
        ParseError { message: err.message, position: err.position }
    }
}

impl ParseError {
    /// The error as it is shown to the user.
    pub fn to_string(&self) -> (r: String)
        ensures
            r@ == "Parse error at "@ + position_text(self.position) + ": "@ + self.message@,
    {
        let mut out = String::from_str("Parse error at ");
        let place = self.position.to_string();
        out.append(place.as_str());
        out.append(": ");
        out.append(self.message.as_str());
        out
    }
}

/// The outcome of a grammar rule at some offset: what it yields, or the
/// message of the error; and the offset behind what was consumed, which for
/// an error is the offset of the token that did not fit.
pub struct Parsed<T> {
    pub result: Result<T, Seq<char>>,
    pub next: int,
}

/// The failure of one rule as the failure of the rule that contains it.
pub open spec fn fail<A, B>(inner: Parsed<A>) -> Parsed<B> {
    Parsed { result: Err(inner.result->Err_0), next: inner.next }
}

/// The rule yields `value`.
pub open spec fn yields<T>(parsed: Parsed<T>, value: T) -> bool {
    parsed.result == Ok::<T, Seq<char>>(value)
}

/// The rule fails, and `error` is its error: the message, at the position of
/// the token that did not fit.
pub open spec fn fails_with<T>(
    tokens: Seq<PositionedTokenView>,
    parsed: Parsed<T>,
    error: ParseErrorView,
) -> bool {
    &&& parsed.result is Err
    &&& error == ParseErrorView {
        message: parsed.result->Err_0,
        position: position_of(tokens, parsed.next),
    }
}

/// The token at `pos`; behind the last token there is `Eof` for ever.
pub open spec fn token_at(tokens: Seq<PositionedTokenView>, pos: int) -> TokenView {
    if 0 <= pos < tokens.len() {
        tokens[pos].token
    } else {
        TokenView::Eof
    }
}

/// The position reported for `pos`: that of the token there or, behind the
/// last token, that of the last token; line 1, column 1 without any token.
pub open spec fn position_of(tokens: Seq<PositionedTokenView>, pos: int) -> Position {
    if 0 <= pos < tokens.len() {
        tokens[pos].position
    } else if tokens.len() > 0 {
        tokens[tokens.len() - 1].position
    } else {
        Position { line: 1, column: 1 }
    }
}

/// The offset behind the token at `pos`; there is no going beyond the end.
pub open spec fn after(tokens: Seq<PositionedTokenView>, pos: int) -> int {
    if 0 <= pos < tokens.len() {
        pos + 1
    } else {
        pos
    }
}

/// The message for a token that is not what the grammar asks for.
pub open spec fn expected_message(expected: Seq<char>, found: TokenView) -> Seq<char> {
    "Expected "@ + expected + ", got "@ + token_text(found)
}

/// The token `expected`.
pub open spec fn token_rule(tokens: Seq<PositionedTokenView>, pos: int, expected: TokenView) -> Parsed<
    (),
> {
    if token_at(tokens, pos) == expected {
        Parsed { result: Ok(()), next: after(tokens, pos) }
    } else {
        Parsed {
            result: Err(expected_message(token_text(expected), token_at(tokens, pos))),
            next: pos,
        }
    }
}

/// An identifier; yields its name.
pub open spec fn name_rule(tokens: Seq<PositionedTokenView>, pos: int) -> Parsed<Seq<char>> {
    match token_at(tokens, pos) {
        TokenView::Identifier(name) => Parsed { result: Ok(name), next: after(tokens, pos) },
        other => Parsed { result: Err(expected_message("identifier"@, other)), next: pos },
    }
}

/// `("," ID)*` behind the names `seen`; yields all names.
pub open spec fn more_names_rule(
    tokens: Seq<PositionedTokenView>,
    pos: int,
    seen: Seq<Seq<char>>,
) -> Parsed<Seq<Seq<char>>>
    decreases tokens.len() - pos,
{
    if token_at(tokens, pos) == TokenView::Comma {
        let name = name_rule(tokens, pos + 1);
        if name.result is Err {
            fail(name)
        } else {
            more_names_rule(tokens, name.next, seen.push(name.result->Ok_0))
        }
    } else {
        Parsed { result: Ok(seen), next: pos }
    }
}

/// `"{" ID ("," ID)* "}"`; yields the names.
pub open spec fn names_rule(tokens: Seq<PositionedTokenView>, pos: int) -> Parsed<Seq<Seq<char>>> {
    let open = token_rule(tokens, pos, TokenView::LeftBrace);
    let first = name_rule(tokens, open.next);
    let names = more_names_rule(tokens, first.next, seq![first.result->Ok_0]);
    let close = token_rule(tokens, names.next, TokenView::RightBrace);
    if open.result is Err {
        fail(open)
    } else if first.result is Err {
        fail(first)
    } else if names.result is Err {
        names
    } else if close.result is Err {
        fail(close)
    } else {
        Parsed { result: names.result, next: close.next }
    }
}

/// `"roles" names`.
pub open spec fn roles_rule(tokens: Seq<PositionedTokenView>, pos: int) -> Parsed<RolesDeclView> {
    let keyword = token_rule(tokens, pos, TokenView::Roles);
    let names = names_rule(tokens, keyword.next);
    if keyword.result is Err {
        fail(keyword)
    } else if names.result is Err {
        fail(names)
    } else {
        Parsed { result: Ok(RolesDeclView { roles: names.result->Ok_0 }), next: names.next }
    }
}

/// `"state" ID [ "roles" names ]`.
pub open spec fn state_rule(tokens: Seq<PositionedTokenView>, pos: int) -> Parsed<StateView> {
    let keyword = token_rule(tokens, pos, TokenView::State);
    let name = name_rule(tokens, keyword.next);
    if keyword.result is Err {
        fail(keyword)
    } else if name.result is Err {
        fail(name)
    } else if token_at(tokens, name.next) == TokenView::Roles {
        let names = names_rule(tokens, name.next + 1);
        if names.result is Err {
            fail(names)
        } else {
            Parsed {
                result: Ok(
                    StateView { name: name.result->Ok_0, allowed_roles: Some(names.result->Ok_0) },
                ),
                next: names.next,
            }
        }
    } else {
        Parsed {
            result: Ok(StateView { name: name.result->Ok_0, allowed_roles: None }),
            next: name.next,
        }
    }
}

/// `ID "[" ID "]"`.
pub open spec fn state_ref_rule(tokens: Seq<PositionedTokenView>, pos: int) -> Parsed<
    StateRefView,
> {
    let state = name_rule(tokens, pos);
    let open = token_rule(tokens, state.next, TokenView::LeftBracket);
    let role = name_rule(tokens, open.next);
    let close = token_rule(tokens, role.next, TokenView::RightBracket);
    if state.result is Err {
        fail(state)
    } else if open.result is Err {
        fail(open)
    } else if role.result is Err {
        fail(role)
    } else if close.result is Err {
        fail(close)
    } else {
        Parsed {
            result: Ok(StateRefView { state: state.result->Ok_0, role: role.result->Ok_0 }),
            next: close.next,
        }
    }
}

/// `ID ":" state_ref "->" state_ref`.
pub open spec fn step_rule(tokens: Seq<PositionedTokenView>, pos: int) -> Parsed<
    SequenceStepView,
> {
    let action = name_rule(tokens, pos);
    let colon = token_rule(tokens, action.next, TokenView::Colon);
    let from = state_ref_rule(tokens, colon.next);
    let arrow = token_rule(tokens, from.next, TokenView::Arrow);
    let to = state_ref_rule(tokens, arrow.next);
    if action.result is Err {
        fail(action)
    } else if colon.result is Err {
        fail(colon)
    } else if from.result is Err {
        fail(from)
    } else if arrow.result is Err {
        fail(arrow)
    } else if to.result is Err {
        fail(to)
    } else {
        Parsed {
            result: Ok(
                SequenceStepView {
                    action_name: action.result->Ok_0,
                    from: from.result->Ok_0,
                    to: to.result->Ok_0,
                },
            ),
            next: to.next,
        }
    }
}

/// `step*` behind the steps `seen`, a step being taken for as long as the
/// next token is an identifier; yields all steps.
pub open spec fn more_steps_rule(
    tokens: Seq<PositionedTokenView>,
    pos: int,
    seen: Seq<SequenceStepView>,
) -> Parsed<Seq<SequenceStepView>>
    decreases tokens.len() - pos,
{
    if token_at(tokens, pos) is Identifier {
        let step = step_rule(tokens, pos);
        if step.result is Err {
            fail(step)
        } else {
            more_steps_rule(tokens, step.next, seen.push(step.result->Ok_0))
        }
    } else {
        Parsed { result: Ok(seen), next: pos }
    }
}

/// `"sequence" ID ":" step+`.
pub open spec fn sequence_rule(tokens: Seq<PositionedTokenView>, pos: int) -> Parsed<
    SequenceView,
> {
    let keyword = token_rule(tokens, pos, TokenView::Sequence);
    let name = name_rule(tokens, keyword.next);
    let colon = token_rule(tokens, name.next, TokenView::Colon);
    let first = step_rule(tokens, colon.next);
    let steps = more_steps_rule(tokens, first.next, seq![first.result->Ok_0]);
    if keyword.result is Err {
        fail(keyword)
    } else if name.result is Err {
        fail(name)
    } else if colon.result is Err {
        fail(colon)
    } else if first.result is Err {
        fail(first)
    } else if steps.result is Err {
        fail(steps)
    } else {
        Parsed {
            result: Ok(SequenceView { name: name.result->Ok_0, steps: steps.result->Ok_0 }),
            next: steps.next,
        }
    }
}

/// A sequence called `name` whose steps are the outcome `steps`.
pub open spec fn sequence_tail(name: Seq<char>, steps: Parsed<Seq<SequenceStepView>>) -> Parsed<
    SequenceView,
> {
    if steps.result is Err {
        fail(steps)
    } else {
        Parsed { result: Ok(SequenceView { name, steps: steps.result->Ok_0 }), next: steps.next }
    }
}

/// `"group" ID names`.
pub open spec fn group_rule(tokens: Seq<PositionedTokenView>, pos: int) -> Parsed<GroupDeclView> {
    let keyword = token_rule(tokens, pos, TokenView::Group);
    let name = name_rule(tokens, keyword.next);
    let names = names_rule(tokens, name.next);
    if keyword.result is Err {
        fail(keyword)
    } else if name.result is Err {
        fail(name)
    } else if names.result is Err {
        fail(names)
    } else {
        Parsed {
            result: Ok(GroupDeclView { name: name.result->Ok_0, states: names.result->Ok_0 }),
            next: names.next,
        }
    }
}

/// The message for a token with which no declaration starts.
pub open spec fn declaration_message(found: TokenView) -> Seq<char> {
    expected_message("declaration (roles, state, sequence, or group)"@, found)
}

/// One declaration; which one is decided by the keyword at `pos`.
pub open spec fn declaration_rule(tokens: Seq<PositionedTokenView>, pos: int) -> Parsed<
    DeclarationView,
> {
    match token_at(tokens, pos) {
        TokenView::Roles => {
            let d = roles_rule(tokens, pos);
            if d.result is Err {
                fail(d)
            } else {
                Parsed { result: Ok(DeclarationView::Roles(d.result->Ok_0)), next: d.next }
            }
        },
        TokenView::State => {
            let d = state_rule(tokens, pos);
            if d.result is Err {
                fail(d)
            } else {
                Parsed { result: Ok(DeclarationView::State(d.result->Ok_0)), next: d.next }
            }
        },
        TokenView::Sequence => {
            let d = sequence_rule(tokens, pos);
            if d.result is Err {
                fail(d)
            } else {
                Parsed { result: Ok(DeclarationView::Sequence(d.result->Ok_0)), next: d.next }
            }
        },
        TokenView::Group => {
            let d = group_rule(tokens, pos);
            if d.result is Err {
                fail(d)
            } else {
                Parsed { result: Ok(DeclarationView::Group(d.result->Ok_0)), next: d.next }
            }
        },
        other => Parsed { result: Err(declaration_message(other)), next: pos },
    }
}

/// A rule that succeeds on a token other than `Eof` consumes it.
pub proof fn lemma_rules_advance(tokens: Seq<PositionedTokenView>, pos: int)
    ensures
        token_rule(tokens, pos, TokenView::Eof).next >= pos,
        forall|expected: TokenView| #[trigger] token_rule(tokens, pos, expected).next >= pos,
        name_rule(tokens, pos).next >= pos,
        name_rule(tokens, pos).result is Ok ==> name_rule(tokens, pos).next == pos + 1,
        state_ref_rule(tokens, pos).next >= pos,
        step_rule(tokens, pos).next >= pos,
        step_rule(tokens, pos).result is Ok ==> step_rule(tokens, pos).next > pos,
        pos <= tokens.len() ==> step_rule(tokens, pos).next <= tokens.len(),
{
}

/// `declaration*` behind the declarations `seen`, up to the end of input;
/// yields all declarations.
pub open spec fn more_declarations_rule(
    tokens: Seq<PositionedTokenView>,
    pos: int,
    seen: Seq<DeclarationView>,
) -> Parsed<Seq<DeclarationView>>
    decreases tokens.len() - pos,
    via more_declarations_decreases
{
    if token_at(tokens, pos) == TokenView::Eof {
        Parsed { result: Ok(seen), next: pos }
    } else {
        let d = declaration_rule(tokens, pos);
        if d.result is Err {
            fail(d)
        } else {
            more_declarations_rule(tokens, d.next, seen.push(d.result->Ok_0))
        }
    }
}

#[via_fn]
proof fn more_declarations_decreases(
    tokens: Seq<PositionedTokenView>,
    pos: int,
    seen: Seq<DeclarationView>,
) {
    lemma_declaration_advances(tokens, pos);
}

/// The names behind a comma are behind the comma.
pub proof fn lemma_more_names_advance(
    tokens: Seq<PositionedTokenView>,
    pos: int,
    seen: Seq<Seq<char>>,
)
    ensures
        more_names_rule(tokens, pos, seen).next >= pos,
        pos <= tokens.len() ==> more_names_rule(tokens, pos, seen).next <= tokens.len(),
    decreases tokens.len() - pos,
{
    if token_at(tokens, pos) == TokenView::Comma {
        let name = name_rule(tokens, pos + 1);
        if name.result is Ok {
            lemma_more_names_advance(tokens, name.next, seen.push(name.result->Ok_0));
        }
    }
}

/// Further steps are behind the steps before them.
pub proof fn lemma_more_steps_advance(
    tokens: Seq<PositionedTokenView>,
    pos: int,
    seen: Seq<SequenceStepView>,
)
    ensures
        more_steps_rule(tokens, pos, seen).next >= pos,
        pos <= tokens.len() ==> more_steps_rule(tokens, pos, seen).next <= tokens.len(),
    decreases tokens.len() - pos,
{
    if token_at(tokens, pos) is Identifier {
        let step = step_rule(tokens, pos);
        lemma_rules_advance(tokens, pos);
        if step.result is Ok {
            lemma_more_steps_advance(tokens, step.next, seen.push(step.result->Ok_0));
        }
    }
}

/// A list of names in braces ends behind where it starts.
pub proof fn lemma_names_advance(tokens: Seq<PositionedTokenView>, pos: int)
    ensures
        names_rule(tokens, pos).next >= pos,
        pos <= tokens.len() ==> names_rule(tokens, pos).next <= tokens.len(),
{
    let open = token_rule(tokens, pos, TokenView::LeftBrace);
    let first = name_rule(tokens, open.next);
    lemma_more_names_advance(tokens, first.next, seq![first.result->Ok_0]);
}

/// A declaration that is parsed consumes at least its keyword.
pub proof fn lemma_declaration_advances(tokens: Seq<PositionedTokenView>, pos: int)
    ensures
        declaration_rule(tokens, pos).next >= pos,
        declaration_rule(tokens, pos).result is Ok ==> declaration_rule(tokens, pos).next > pos,
        pos <= tokens.len() ==> declaration_rule(tokens, pos).next <= tokens.len(),
{
    lemma_names_advance(tokens, pos + 1);
    let name = name_rule(tokens, pos + 1);
    lemma_names_advance(tokens, name.next);
    lemma_names_advance(tokens, name.next + 1);
    let colon = token_rule(tokens, name.next, TokenView::Colon);
    let first = step_rule(tokens, colon.next);
    lemma_rules_advance(tokens, colon.next);
    lemma_more_steps_advance(tokens, first.next, seq![first.result->Ok_0]);
}

/// A whole unit: `declaration*` up to the end of input.
pub open spec fn file_rule(tokens: Seq<PositionedTokenView>, pos: int) -> Parsed<MartialFileView> {
    let all = more_declarations_rule(tokens, pos, Seq::empty());
    if all.result is Err {
        fail(all)
    } else {
        Parsed { result: Ok(MartialFileView { declarations: all.result->Ok_0 }), next: all.next }
    }
}

/// The parser: the tokens of one unit and the offset up to which they have
/// been consumed.
pub struct Parser {
    tokens: Vec<PositionedToken>,
    position: usize,
}

impl Parser {
    /// The tokens that the parser reads.
    pub closed spec fn tokens(&self) -> Seq<PositionedTokenView> {
        views(self.tokens@)
    }

    /// The number of tokens consumed so far.
    pub closed spec fn cursor(&self) -> int {
        self.position as int
    }

    /// A parser at the start of `tokens`.
    pub fn new(tokens: Vec<PositionedToken>) -> (r: Self)
        ensures
            r.tokens() == views(tokens@),
            r.cursor() == 0,
    {
        Parser { tokens, position: 0 }
    }

    fn current_position(&self) -> (r: Position)
        ensures
            r == position_of(self.tokens(), self.cursor()),
    {
        if self.position < self.tokens.len() {
            self.tokens[self.position].position
        } else if self.tokens.len() > 0 {
            self.tokens[self.tokens.len() - 1].position
        } else {
            Position { line: 1, column: 1 }
        }
    }

    fn peek(&self) -> (r: &Token)
        ensures
            r@ == token_at(self.tokens(), self.cursor()),
    {
        if self.position < self.tokens.len() {
            &self.tokens[self.position].token
        } else {
            &Token::Eof
        }
    }

    fn advance(&mut self)
        ensures
            final(self).tokens() == old(self).tokens(),
            final(self).cursor() == after(old(self).tokens(), old(self).cursor()),
    {
        if self.position < self.tokens.len() {
            self.position += 1;
        }
    }

    fn unexpected(&self, expected: &str) -> (r: ParseError)
        ensures
            r@ == (ParseErrorView {
                message: expected_message(expected@, token_at(self.tokens(), self.cursor())),
                position: position_of(self.tokens(), self.cursor()),
            }),
    {
        let mut message = String::from_str("Expected ");
        message.append(expected);
        message.append(", got ");
        let found = self.peek().to_string();
        message.append(found.as_str());
        ParseError { message, position: self.current_position() }
    }

    fn expect(&mut self, expected: Token) -> (r: Result<(), ParseError>)
        ensures
            final(self).tokens() == old(self).tokens(),
            final(self).cursor() == token_rule(
                old(self).tokens(),
                old(self).cursor(),
                expected@,
            ).next,
            match r {
                Ok(_) => token_rule(old(self).tokens(), old(self).cursor(), expected@).result is Ok,
                Err(e) => fails_with(
                    old(self).tokens(),
                    token_rule(old(self).tokens(), old(self).cursor(), expected@),
                    e@,
                ),
            },
    {
        if self.peek().same(&expected) {
            self.advance();
            Ok(())
        } else {
            let wanted = expected.to_string();
            Err(self.unexpected(wanted.as_str()))
        }
    }

    fn expect_identifier(&mut self) -> (r: Result<String, ParseError>)
        ensures
            final(self).tokens() == old(self).tokens(),
            final(self).cursor() == name_rule(old(self).tokens(), old(self).cursor()).next,
            match r {
                Ok(name) => yields(name_rule(old(self).tokens(), old(self).cursor()), name@),
                Err(e) => fails_with(
                    old(self).tokens(),
                    name_rule(old(self).tokens(), old(self).cursor()),
                    e@,
                ),
            },
    {
        let found = match self.peek() {
            Token::Identifier(name) => Some(name.clone()),
            _ => None,
        };
        match found {
            Some(name) => {
                self.advance();
                Ok(name)
            },
            None => Err(self.unexpected("identifier")),
        }
    }

    fn parse_names(&mut self) -> (r: Result<Vec<String>, ParseError>)
        ensures
            final(self).tokens() == old(self).tokens(),
            final(self).cursor() == names_rule(old(self).tokens(), old(self).cursor()).next,
            match r {
                Ok(names) => yields(
                    names_rule(old(self).tokens(), old(self).cursor()),
                    texts(names@),
                ),
                Err(e) => fails_with(
                    old(self).tokens(),
                    names_rule(old(self).tokens(), old(self).cursor()),
                    e@,
                ),
            },
    {
        let ghost tokens = self.tokens();
        self.expect(Token::LeftBrace)?;
        let mut names: Vec<String> = Vec::new();
        let first = self.expect_identifier()?;
        let ghost begin = self.cursor();
        let ghost one = seq![first@];
        names.push(first);
        assert(texts(names@) =~= one);
        while self.peek().same(&Token::Comma)
            invariant
                self.tokens() == tokens,
                tokens == old(self).tokens(),
                token_rule(tokens, old(self).cursor(), TokenView::LeftBrace).result is Ok,
                name_rule(
                    tokens,
                    token_rule(tokens, old(self).cursor(), TokenView::LeftBrace).next,
                ).result is Ok,
                begin == name_rule(
                    tokens,
                    token_rule(tokens, old(self).cursor(), TokenView::LeftBrace).next,
                ).next,
                one == seq![
                    name_rule(
                        tokens,
                        token_rule(tokens, old(self).cursor(), TokenView::LeftBrace).next,
                    ).result->Ok_0,
                ],
                more_names_rule(tokens, self.cursor(), texts(names@)) == more_names_rule(
                    tokens,
                    begin,
                    one,
                ),
            ensures
                self.tokens() == tokens,
                more_names_rule(tokens, begin, one) == (Parsed {
                    result: Ok::<Seq<Seq<char>>, Seq<char>>(texts(names@)),
                    next: self.cursor(),
                }),
            decreases tokens.len() - self.cursor(),
        {
            let ghost before = texts(names@);
            self.advance();
            let name = self.expect_identifier()?;
            let ghost added = name@;
            names.push(name);
            assert(texts(names@) =~= before.push(added));
        }
        self.expect(Token::RightBrace)?;
        Ok(names)
    }

    fn parse_roles_decl(&mut self) -> (r: Result<RolesDecl, ParseError>)
        ensures
            final(self).tokens() == old(self).tokens(),
            final(self).cursor() == roles_rule(old(self).tokens(), old(self).cursor()).next,
            match r {
                Ok(d) => yields(roles_rule(old(self).tokens(), old(self).cursor()), d@),
                Err(e) => fails_with(
                    old(self).tokens(),
                    roles_rule(old(self).tokens(), old(self).cursor()),
                    e@,
                ),
            },
    {
        self.expect(Token::Roles)?;
        let roles = self.parse_names()?;
        Ok(RolesDecl { roles })
    }

    fn parse_state_decl(&mut self) -> (r: Result<State, ParseError>)
        ensures
            final(self).tokens() == old(self).tokens(),
            final(self).cursor() == state_rule(old(self).tokens(), old(self).cursor()).next,
            match r {
                Ok(d) => yields(state_rule(old(self).tokens(), old(self).cursor()), d@),
                Err(e) => fails_with(
                    old(self).tokens(),
                    state_rule(old(self).tokens(), old(self).cursor()),
                    e@,
                ),
            },
    {
        self.expect(Token::State)?;
        let name = self.expect_identifier()?;
        let allowed_roles = if self.peek().same(&Token::Roles) {
            self.advance();
            Some(self.parse_names()?)
        } else {
            None
        };
        Ok(State { name, allowed_roles })
    }

    fn parse_state_ref(&mut self) -> (r: Result<StateRef, ParseError>)
        ensures
            final(self).tokens() == old(self).tokens(),
            final(self).cursor() == state_ref_rule(old(self).tokens(), old(self).cursor()).next,
            match r {
                Ok(d) => yields(state_ref_rule(old(self).tokens(), old(self).cursor()), d@),
                Err(e) => fails_with(
                    old(self).tokens(),
                    state_ref_rule(old(self).tokens(), old(self).cursor()),
                    e@,
                ),
            },
    {
        let state = self.expect_identifier()?;
        self.expect(Token::LeftBracket)?;
        let role = self.expect_identifier()?;
        self.expect(Token::RightBracket)?;
        Ok(StateRef { state, role })
    }

    fn parse_sequence_step(&mut self) -> (r: Result<SequenceStep, ParseError>)
        ensures
            final(self).tokens() == old(self).tokens(),
            final(self).cursor() == step_rule(old(self).tokens(), old(self).cursor()).next,
            match r {
                Ok(d) => yields(step_rule(old(self).tokens(), old(self).cursor()), d@),
                Err(e) => fails_with(
                    old(self).tokens(),
                    step_rule(old(self).tokens(), old(self).cursor()),
                    e@,
                ),
            },
    {
        let action_name = self.expect_identifier()?;
        self.expect(Token::Colon)?;
        let from = self.parse_state_ref()?;
        self.expect(Token::Arrow)?;
        let to = self.parse_state_ref()?;
        Ok(SequenceStep { action_name, from, to })
    }

    fn at_identifier(&self) -> (r: bool)
        ensures
            r == (token_at(self.tokens(), self.cursor()) is Identifier),
    {
        match self.peek() {
            Token::Identifier(_) => true,
            _ => false,
        }
    }

    fn parse_sequence_decl(&mut self) -> (r: Result<Sequence, ParseError>)
        ensures
            final(self).tokens() == old(self).tokens(),
            final(self).cursor() == sequence_rule(old(self).tokens(), old(self).cursor()).next,
            match r {
                Ok(d) => yields(sequence_rule(old(self).tokens(), old(self).cursor()), d@),
                Err(e) => fails_with(
                    old(self).tokens(),
                    sequence_rule(old(self).tokens(), old(self).cursor()),
                    e@,
                ),
            },
    {
        let ghost tokens = self.tokens();
        self.expect(Token::Sequence)?;
        let name = self.expect_identifier()?;
        self.expect(Token::Colon)?;
        let mut steps: Vec<SequenceStep> = Vec::new();
        let first = self.parse_sequence_step()?;
        let ghost begin = self.cursor();
        let ghost one = seq![first@];
        steps.push(first);
        assert(views(steps@) =~= one);
        while self.at_identifier()
            invariant
                self.tokens() == tokens,
                tokens == old(self).tokens(),
                sequence_rule(tokens, old(self).cursor()) == sequence_tail(
                    name@,
                    more_steps_rule(tokens, begin, one),
                ),
                more_steps_rule(tokens, self.cursor(), views(steps@)) == more_steps_rule(
                    tokens,
                    begin,
                    one,
                ),
            ensures
                self.tokens() == tokens,
                more_steps_rule(tokens, begin, one) == (Parsed {
                    result: Ok::<Seq<SequenceStepView>, Seq<char>>(views(steps@)),
                    next: self.cursor(),
                }),
            decreases tokens.len() - self.cursor(),
        {
            let ghost before = views(steps@);
            proof {
                lemma_rules_advance(tokens, self.cursor());
            }
            let step = self.parse_sequence_step()?;
            let ghost added = step@;
            steps.push(step);
            assert(views(steps@) =~= before.push(added));
        }
        Ok(Sequence { name, steps })
    }

    fn parse_group_decl(&mut self) -> (r: Result<GroupDecl, ParseError>)
        ensures
            final(self).tokens() == old(self).tokens(),
            final(self).cursor() == group_rule(old(self).tokens(), old(self).cursor()).next,
            match r {
                Ok(d) => yields(group_rule(old(self).tokens(), old(self).cursor()), d@),
                Err(e) => fails_with(
                    old(self).tokens(),
                    group_rule(old(self).tokens(), old(self).cursor()),
                    e@,
                ),
            },
    {
        self.expect(Token::Group)?;
        let name = self.expect_identifier()?;
        let states = self.parse_names()?;
        Ok(GroupDecl { name, states })
    }

    fn parse_declaration(&mut self) -> (r: Result<Declaration, ParseError>)
        ensures
            final(self).tokens() == old(self).tokens(),
            final(self).cursor() == declaration_rule(old(self).tokens(), old(self).cursor()).next,
            match r {
                Ok(d) => yields(declaration_rule(old(self).tokens(), old(self).cursor()), d@),
                Err(e) => fails_with(
                    old(self).tokens(),
                    declaration_rule(old(self).tokens(), old(self).cursor()),
                    e@,
                ),
            },
    {
        if self.peek().same(&Token::Roles) {
            Ok(Declaration::Roles(self.parse_roles_decl()?))
        } else if self.peek().same(&Token::State) {
            Ok(Declaration::State(self.parse_state_decl()?))
        } else if self.peek().same(&Token::Sequence) {
            Ok(Declaration::Sequence(self.parse_sequence_decl()?))
        } else if self.peek().same(&Token::Group) {
            Ok(Declaration::Group(self.parse_group_decl()?))
        } else {
            Err(self.unexpected("declaration (roles, state, sequence, or group)"))
        }
    }

    /// Parses the declarations of a unit, from where the parser stands up to
    /// the end of input, or up to the first token that does not fit.
    pub fn parse(&mut self) -> (r: Result<MartialFile, ParseError>)
        ensures
            final(self).tokens() == old(self).tokens(),
            final(self).cursor() == file_rule(old(self).tokens(), old(self).cursor()).next,
            match r {
                Ok(file) => yields(file_rule(old(self).tokens(), old(self).cursor()), file@),
                Err(e) => fails_with(
                    old(self).tokens(),
                    file_rule(old(self).tokens(), old(self).cursor()),
                    e@,
                ),
            },
    {
        let ghost tokens = self.tokens();
        let ghost begin = self.cursor();
        let mut declarations: Vec<Declaration> = Vec::new();
        assert(views(declarations@) =~= Seq::<DeclarationView>::empty());
        while !self.peek().same(&Token::Eof)
            invariant
                self.tokens() == tokens,
                tokens == old(self).tokens(),
                begin == old(self).cursor(),
                more_declarations_rule(tokens, self.cursor(), views(declarations@))
                    == more_declarations_rule(tokens, begin, Seq::empty()),
            ensures
                self.tokens() == tokens,
                more_declarations_rule(tokens, begin, Seq::empty()) == (Parsed {
                    result: Ok::<Seq<DeclarationView>, Seq<char>>(views(declarations@)),
                    next: self.cursor(),
                }),
            decreases tokens.len() - self.cursor(),
        {
            let ghost before = views(declarations@);
            proof {
                lemma_declaration_advances(tokens, self.cursor());
            }
            let declaration = self.parse_declaration()?;
            let ghost added = declaration@;
            declarations.push(declaration);
            assert(views(declarations@) =~= before.push(added));
        }
        Ok(MartialFile { declarations })
    }
}

} // verus!
