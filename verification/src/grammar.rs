//! What the parser accepts, said without the parser: how a syntax tree is
//! written as tokens, and the two laws that tie this to the grammar rules.
//!
//! - Whatever the parser yields is written as exactly the tokens that it
//!   consumed ([`law_parsed_file_reads_its_tokens`]).
//! - Whatever is written from a well-shaped tree is parsed back into that
//!   tree ([`law_written_file_is_parsed_back`]), with one exception that lies
//!   in the language itself: a state without a role list that is directly
//!   followed by a roles declaration takes that declaration as its role list.

use vstd::prelude::*;
use crate::ast::{
    DeclarationView, MartialFileView, RolesDeclView, SequenceStepView, SequenceView,
    StateRefView, StateView,
};
use crate::lexer::{PositionedTokenView, TokenView};
use crate::parser::{
    declaration_rule, file_rule, group_rule, lemma_declaration_advances, more_declarations_rule,
    more_names_rule, more_steps_rule, name_rule, names_rule, roles_rule, sequence_rule,
    state_ref_rule, state_rule, step_rule, token_at, token_rule, Parsed,
};

verus! {

/// The tokens of a token list, without their positions.
pub open spec fn kinds(tokens: Seq<PositionedTokenView>) -> Seq<TokenView> {
    tokens.map_values(|t: PositionedTokenView| t.token)
}

/// From offset `from` up to offset `to`, the token list holds exactly
/// `expected`.
pub open spec fn reads(
    tokens: Seq<PositionedTokenView>,
    from: int,
    to: int,
    expected: Seq<TokenView>,
) -> bool {
    &&& 0 <= from <= to <= tokens.len()
    &&& kinds(tokens).subrange(from, to) == expected
}

/// Names separated by commas.
pub open spec fn listed(names: Seq<Seq<char>>) -> Seq<TokenView>
    decreases names.len(),
{
    if names.len() == 0 {
        Seq::empty()
    } else if names.len() == 1 {
        seq![TokenView::Identifier(names[0])]
    } else {
        listed(names.drop_last()) + seq![TokenView::Comma, TokenView::Identifier(names.last())]
    }
}

/// Names separated by commas, in braces.
pub open spec fn written_names(names: Seq<Seq<char>>) -> Seq<TokenView> {
    seq![TokenView::LeftBrace] + listed(names) + seq![TokenView::RightBrace]
}

/// An endpoint, as in `Mount[Top]`.
pub open spec fn written_state_ref(r: StateRefView) -> Seq<TokenView> {
    seq![
        TokenView::Identifier(r.state),
        TokenView::LeftBracket,
        TokenView::Identifier(r.role),
        TokenView::RightBracket,
    ]
}

/// A step, as in `Shrimp: Mount[Bottom] -> Guard[Bottom]`.
pub open spec fn written_step(step: SequenceStepView) -> Seq<TokenView> {
    seq![TokenView::Identifier(step.action_name), TokenView::Colon] + written_state_ref(step.from)
        + seq![TokenView::Arrow] + written_state_ref(step.to)
}

/// Steps, one after another.
pub open spec fn written_steps(steps: Seq<SequenceStepView>) -> Seq<TokenView>
    decreases steps.len(),
{
    if steps.len() == 0 {
        Seq::empty()
    } else {
        written_steps(steps.drop_last()) + written_step(steps.last())
    }
}

/// A state declaration.
pub open spec fn written_state(state: StateView) -> Seq<TokenView> {
    seq![TokenView::State, TokenView::Identifier(state.name)] + (match state.allowed_roles {
        Some(roles) => seq![TokenView::Roles] + written_names(roles),
        None => Seq::empty(),
    })
}

/// A sequence declaration.
pub open spec fn written_sequence(sequence: SequenceView) -> Seq<TokenView> {
    seq![TokenView::Sequence, TokenView::Identifier(sequence.name), TokenView::Colon]
        + written_steps(sequence.steps)
}

/// A declaration of any kind.
pub open spec fn written_declaration(declaration: DeclarationView) -> Seq<TokenView> {
    match declaration {
        DeclarationView::Roles(d) => seq![TokenView::Roles] + written_names(d.roles),
        DeclarationView::State(d) => written_state(d),
        DeclarationView::Sequence(d) => written_sequence(d),
        DeclarationView::Group(d) => seq![TokenView::Group, TokenView::Identifier(d.name)]
            + written_names(d.states),
    }
}

/// Declarations, one after another.
pub open spec fn written_declarations(declarations: Seq<DeclarationView>) -> Seq<TokenView>
    decreases declarations.len(),
{
    if declarations.len() == 0 {
        Seq::empty()
    } else {
        written_declarations(declarations.drop_last()) + written_declaration(declarations.last())
    }
}

/// A declaration has the shape that the grammar asks for: every list of
/// names holds a name, and a sequence holds a step.
pub open spec fn well_shaped(declaration: DeclarationView) -> bool {
    match declaration {
        DeclarationView::Roles(d) => d.roles.len() > 0,
        DeclarationView::State(d) => match d.allowed_roles {
            Some(roles) => roles.len() > 0,
            None => true,
        },
        DeclarationView::Sequence(d) => d.steps.len() > 0,
        DeclarationView::Group(d) => d.states.len() > 0,
    }
}

/// Every declaration of the list is well-shaped.
pub open spec fn all_well_shaped(declarations: Seq<DeclarationView>) -> bool {
    forall|i: int| 0 <= i < declarations.len() ==> well_shaped(#[trigger] declarations[i])
}

/// What is read from `from` to `mid` and what is read from `mid` to `to` is
/// read from `from` to `to`, one after the other.
pub proof fn lemma_reads_join(
    tokens: Seq<PositionedTokenView>,
    from: int,
    mid: int,
    to: int,
    a: Seq<TokenView>,
    b: Seq<TokenView>,
)
    requires
        reads(tokens, from, mid, a),
        reads(tokens, mid, to, b),
    ensures
        reads(tokens, from, to, a + b),
{
    assert(kinds(tokens).subrange(from, to) =~= kinds(tokens).subrange(from, mid) + kinds(
        tokens,
    ).subrange(mid, to));
}

/// What is read as `a` followed by `b` is read in two parts.
pub proof fn lemma_reads_split(
    tokens: Seq<PositionedTokenView>,
    from: int,
    to: int,
    a: Seq<TokenView>,
    b: Seq<TokenView>,
)
    requires
        reads(tokens, from, to, a + b),
    ensures
        reads(tokens, from, from + a.len(), a),
        reads(tokens, from + a.len(), to, b),
{
    let all = kinds(tokens).subrange(from, to);
    assert(all.len() == a.len() + b.len());
    assert(kinds(tokens).subrange(from, from + a.len()) =~= a) by {
        assert forall|i: int| 0 <= i < a.len() implies kinds(tokens).subrange(
            from,
            from + a.len(),
        )[i] == a[i] by {
            assert(all[i] == (a + b)[i]);
        }
    }
    assert(kinds(tokens).subrange(from + a.len(), to) =~= b) by {
        assert forall|i: int| 0 <= i < b.len() implies kinds(tokens).subrange(
            from + a.len(),
            to,
        )[i] == b[i] by {
            assert(all[a.len() + i] == (a + b)[a.len() + i]);
        }
    }
}

/// What is read at an offset starts with the token at that offset.
pub proof fn lemma_reads_first(
    tokens: Seq<PositionedTokenView>,
    from: int,
    to: int,
    expected: Seq<TokenView>,
    i: int,
)
    requires
        reads(tokens, from, to, expected),
        0 <= i < expected.len(),
    ensures
        token_at(tokens, from + i) == expected[i],
        from + i < tokens.len(),
{
    assert(kinds(tokens).subrange(from, to)[i] == expected[i]);
}

/// Further names are read as written: comma, name, comma, name.
pub proof fn lemma_more_names_read(
    tokens: Seq<PositionedTokenView>,
    pos: int,
    seen: Seq<Seq<char>>,
)
    requires
        0 <= pos <= tokens.len(),
        seen.len() > 0,
        more_names_rule(tokens, pos, seen).result is Ok,
    ensures
        ({
            let parsed = more_names_rule(tokens, pos, seen);
            let names = parsed.result->Ok_0;
            &&& names.len() >= seen.len()
            &&& pos <= parsed.next <= tokens.len()
            &&& listed(names) == listed(seen) + kinds(tokens).subrange(pos, parsed.next)
        }),
    decreases tokens.len() - pos,
{
    let parsed = more_names_rule(tokens, pos, seen);
    if token_at(tokens, pos) == TokenView::Comma {
        let name = name_rule(tokens, pos + 1);
        let more = seen.push(name.result->Ok_0);
        lemma_more_names_read(tokens, name.next, more);
        assert(more.drop_last() =~= seen);
        assert(kinds(tokens).subrange(pos, parsed.next) =~= seq![
            TokenView::Comma,
            TokenView::Identifier(name.result->Ok_0),
        ] + kinds(tokens).subrange(pos + 2, parsed.next));
        assert(listed(more) + kinds(tokens).subrange(pos + 2, parsed.next) =~= listed(seen)
            + kinds(tokens).subrange(pos, parsed.next));
    } else {
        assert(kinds(tokens).subrange(pos, pos) =~= Seq::<TokenView>::empty());
        assert(listed(seen) + Seq::<TokenView>::empty() =~= listed(seen));
    }
}

/// A list of names in braces is read as written, and holds a name.
pub proof fn lemma_names_read(tokens: Seq<PositionedTokenView>, pos: int)
    requires
        0 <= pos <= tokens.len(),
        names_rule(tokens, pos).result is Ok,
    ensures
        names_rule(tokens, pos).result->Ok_0.len() > 0,
        reads(
            tokens,
            pos,
            names_rule(tokens, pos).next,
            written_names(names_rule(tokens, pos).result->Ok_0),
        ),
{
    let open = token_rule(tokens, pos, TokenView::LeftBrace);
    let first = name_rule(tokens, open.next);
    let one = seq![first.result->Ok_0];
    let names = more_names_rule(tokens, first.next, one);
    lemma_more_names_read(tokens, first.next, one);
    let end = names_rule(tokens, pos).next;
    assert(kinds(tokens).subrange(pos, end) =~= seq![TokenView::LeftBrace] + (listed(one) + kinds(
        tokens,
    ).subrange(pos + 2, names.next)) + seq![TokenView::RightBrace]);
}

/// An endpoint is read as written.
pub proof fn lemma_state_ref_read(tokens: Seq<PositionedTokenView>, pos: int)
    requires
        0 <= pos <= tokens.len(),
        state_ref_rule(tokens, pos).result is Ok,
    ensures
        state_ref_rule(tokens, pos).next == pos + 4,
        reads(tokens, pos, pos + 4, written_state_ref(state_ref_rule(tokens, pos).result->Ok_0)),
{
    assert(kinds(tokens).subrange(pos, pos + 4) =~= written_state_ref(
        state_ref_rule(tokens, pos).result->Ok_0,
    ));
}

/// A step is read as written.
pub proof fn lemma_step_read(tokens: Seq<PositionedTokenView>, pos: int)
    requires
        0 <= pos <= tokens.len(),
        step_rule(tokens, pos).result is Ok,
    ensures
        step_rule(tokens, pos).next == pos + 11,
        reads(tokens, pos, pos + 11, written_step(step_rule(tokens, pos).result->Ok_0)),
{
    lemma_state_ref_read(tokens, pos + 2);
    lemma_state_ref_read(tokens, pos + 7);
    let step = step_rule(tokens, pos).result->Ok_0;
    assert(kinds(tokens).subrange(pos, pos + 2) =~= seq![
        TokenView::Identifier(step.action_name),
        TokenView::Colon,
    ]);
    assert(kinds(tokens).subrange(pos + 6, pos + 7) =~= seq![TokenView::Arrow]);
    lemma_reads_join(
        tokens,
        pos,
        pos + 2,
        pos + 6,
        seq![TokenView::Identifier(step.action_name), TokenView::Colon],
        written_state_ref(step.from),
    );
    lemma_reads_join(
        tokens,
        pos,
        pos + 6,
        pos + 7,
        seq![TokenView::Identifier(step.action_name), TokenView::Colon] + written_state_ref(
            step.from,
        ),
        seq![TokenView::Arrow],
    );
    lemma_reads_join(
        tokens,
        pos,
        pos + 7,
        pos + 11,
        seq![TokenView::Identifier(step.action_name), TokenView::Colon] + written_state_ref(
            step.from,
        ) + seq![TokenView::Arrow],
        written_state_ref(step.to),
    );
}

/// Further steps are read as written, and the token behind them is not an
/// identifier.
pub proof fn lemma_more_steps_read(
    tokens: Seq<PositionedTokenView>,
    pos: int,
    seen: Seq<SequenceStepView>,
)
    requires
        0 <= pos <= tokens.len(),
        more_steps_rule(tokens, pos, seen).result is Ok,
    ensures
        ({
            let parsed = more_steps_rule(tokens, pos, seen);
            let steps = parsed.result->Ok_0;
            &&& steps.len() >= seen.len()
            &&& pos <= parsed.next <= tokens.len()
            &&& written_steps(steps) == written_steps(seen) + kinds(tokens).subrange(
                pos,
                parsed.next,
            )
            &&& !(token_at(tokens, parsed.next) is Identifier)
        }),
    decreases tokens.len() - pos,
{
    let parsed = more_steps_rule(tokens, pos, seen);
    if token_at(tokens, pos) is Identifier {
        let step = step_rule(tokens, pos);
        lemma_step_read(tokens, pos);
        let more = seen.push(step.result->Ok_0);
        lemma_more_steps_read(tokens, step.next, more);
        assert(more.drop_last() =~= seen);
        assert(kinds(tokens).subrange(pos, parsed.next) =~= kinds(tokens).subrange(pos, pos + 11)
            + kinds(tokens).subrange(pos + 11, parsed.next));
        assert(written_steps(more) + kinds(tokens).subrange(pos + 11, parsed.next)
            =~= written_steps(seen) + kinds(tokens).subrange(pos, parsed.next));
    } else {
        assert(kinds(tokens).subrange(pos, pos) =~= Seq::<TokenView>::empty());
        assert(written_steps(seen) + Seq::<TokenView>::empty() =~= written_steps(seen));
    }
}

/// A roles declaration is read as written, and holds a role.
pub proof fn lemma_roles_read(tokens: Seq<PositionedTokenView>, pos: int)
    requires
        0 <= pos <= tokens.len(),
        roles_rule(tokens, pos).result is Ok,
    ensures
        roles_rule(tokens, pos).result->Ok_0.roles.len() > 0,
        reads(
            tokens,
            pos,
            roles_rule(tokens, pos).next,
            seq![TokenView::Roles] + written_names(roles_rule(tokens, pos).result->Ok_0.roles),
        ),
{
    lemma_names_read(tokens, pos + 1);
    assert(kinds(tokens).subrange(pos, pos + 1) =~= seq![TokenView::Roles]);
    lemma_reads_join(
        tokens,
        pos,
        pos + 1,
        roles_rule(tokens, pos).next,
        seq![TokenView::Roles],
        written_names(roles_rule(tokens, pos).result->Ok_0.roles),
    );
}

/// A state declaration is read as written; its role list, if it has one,
/// holds a role; if it has none, the token behind it is not `roles`.
pub proof fn lemma_state_read(tokens: Seq<PositionedTokenView>, pos: int)
    requires
        0 <= pos <= tokens.len(),
        state_rule(tokens, pos).result is Ok,
    ensures
        well_shaped(DeclarationView::State(state_rule(tokens, pos).result->Ok_0)),
        reads(
            tokens,
            pos,
            state_rule(tokens, pos).next,
            written_state(state_rule(tokens, pos).result->Ok_0),
        ),
        state_rule(tokens, pos).result->Ok_0.allowed_roles is None ==> token_at(
            tokens,
            state_rule(tokens, pos).next,
        ) != TokenView::Roles,
{
    let state = state_rule(tokens, pos).result->Ok_0;
    let end = state_rule(tokens, pos).next;
    let head = seq![TokenView::State, TokenView::Identifier(state.name)];
    assert(kinds(tokens).subrange(pos, pos + 2) =~= head);
    if token_at(tokens, pos + 2) == TokenView::Roles {
        lemma_names_read(tokens, pos + 3);
        assert(kinds(tokens).subrange(pos + 2, pos + 3) =~= seq![TokenView::Roles]);
        lemma_reads_join(
            tokens,
            pos + 2,
            pos + 3,
            end,
            seq![TokenView::Roles],
            written_names(state.allowed_roles->0),
        );
        lemma_reads_join(
            tokens,
            pos,
            pos + 2,
            end,
            head,
            seq![TokenView::Roles] + written_names(state.allowed_roles->0),
        );
    } else {
        assert(head + Seq::<TokenView>::empty() =~= head);
    }
}

/// One step written alone.
pub proof fn lemma_written_one_step(step: SequenceStepView)
    ensures
        written_steps(seq![step]) == written_step(step),
{
    let one = seq![step];
    assert(one.drop_last() =~= Seq::<SequenceStepView>::empty());
    assert(written_steps(one.drop_last()) =~= Seq::<TokenView>::empty());
    assert(one.last() == step);
    assert(written_steps(one) =~= written_step(step));
}

/// A sequence declaration is read as written, and holds a step; the token
/// behind it is not an identifier.
pub proof fn lemma_sequence_read(tokens: Seq<PositionedTokenView>, pos: int)
    requires
        0 <= pos <= tokens.len(),
        sequence_rule(tokens, pos).result is Ok,
    ensures
        sequence_rule(tokens, pos).result->Ok_0.steps.len() > 0,
        reads(
            tokens,
            pos,
            sequence_rule(tokens, pos).next,
            written_sequence(sequence_rule(tokens, pos).result->Ok_0),
        ),
        !(token_at(tokens, sequence_rule(tokens, pos).next) is Identifier),
{
    let sequence = sequence_rule(tokens, pos).result->Ok_0;
    let end = sequence_rule(tokens, pos).next;
    let first = step_rule(tokens, pos + 3);
    let one = seq![first.result->Ok_0];
    let head = seq![
        TokenView::Sequence,
        TokenView::Identifier(sequence.name),
        TokenView::Colon,
    ];
    lemma_step_read(tokens, pos + 3);
    lemma_more_steps_read(tokens, pos + 14, one);
    lemma_written_one_step(first.result->Ok_0);
    assert(kinds(tokens).subrange(pos, pos + 3) =~= head);
    assert(kinds(tokens).subrange(pos + 3, end) =~= kinds(tokens).subrange(pos + 3, pos + 14)
        + kinds(tokens).subrange(pos + 14, end));
    lemma_reads_join(tokens, pos, pos + 3, end, head, written_steps(sequence.steps));
}

/// A group declaration is read as written, and holds a state.
pub proof fn lemma_group_read(tokens: Seq<PositionedTokenView>, pos: int)
    requires
        0 <= pos <= tokens.len(),
        group_rule(tokens, pos).result is Ok,
    ensures
        group_rule(tokens, pos).result->Ok_0.states.len() > 0,
        reads(
            tokens,
            pos,
            group_rule(tokens, pos).next,
            seq![
                TokenView::Group,
                TokenView::Identifier(group_rule(tokens, pos).result->Ok_0.name),
            ] + written_names(group_rule(tokens, pos).result->Ok_0.states),
        ),
{
    let group = group_rule(tokens, pos).result->Ok_0;
    let head = seq![TokenView::Group, TokenView::Identifier(group.name)];
    lemma_names_read(tokens, pos + 2);
    assert(kinds(tokens).subrange(pos, pos + 2) =~= head);
    lemma_reads_join(
        tokens,
        pos,
        pos + 2,
        group_rule(tokens, pos).next,
        head,
        written_names(group.states),
    );
}

/// A declaration is read as written, and is well-shaped.
pub proof fn lemma_declaration_read(tokens: Seq<PositionedTokenView>, pos: int)
    requires
        0 <= pos <= tokens.len(),
        declaration_rule(tokens, pos).result is Ok,
    ensures
        well_shaped(declaration_rule(tokens, pos).result->Ok_0),
        reads(
            tokens,
            pos,
            declaration_rule(tokens, pos).next,
            written_declaration(declaration_rule(tokens, pos).result->Ok_0),
        ),
{
    match token_at(tokens, pos) {
        TokenView::Roles => {
            lemma_roles_read(tokens, pos);
        },
        TokenView::State => {
            lemma_state_read(tokens, pos);
        },
        TokenView::Sequence => {
            lemma_sequence_read(tokens, pos);
        },
        TokenView::Group => {
            lemma_group_read(tokens, pos);
        },
        _ => {},
    }
}

/// Further declarations are read as written, are well-shaped, and are
/// followed by the end of input.
pub proof fn lemma_more_declarations_read(
    tokens: Seq<PositionedTokenView>,
    pos: int,
    seen: Seq<DeclarationView>,
)
    requires
        0 <= pos <= tokens.len(),
        all_well_shaped(seen),
        more_declarations_rule(tokens, pos, seen).result is Ok,
    ensures
        ({
            let parsed = more_declarations_rule(tokens, pos, seen);
            let all = parsed.result->Ok_0;
            &&& all_well_shaped(all)
            &&& pos <= parsed.next <= tokens.len()
            &&& written_declarations(all) == written_declarations(seen) + kinds(tokens).subrange(
                pos,
                parsed.next,
            )
            &&& token_at(tokens, parsed.next) == TokenView::Eof
        }),
    decreases tokens.len() - pos,
{
    let parsed = more_declarations_rule(tokens, pos, seen);
    if token_at(tokens, pos) == TokenView::Eof {
        assert(kinds(tokens).subrange(pos, pos) =~= Seq::<TokenView>::empty());
        assert(written_declarations(seen) + Seq::<TokenView>::empty() =~= written_declarations(
            seen,
        ));
    } else {
        let d = declaration_rule(tokens, pos);
        lemma_declaration_advances(tokens, pos);
        lemma_declaration_read(tokens, pos);
        let more = seen.push(d.result->Ok_0);
        assert(more.drop_last() =~= seen);
        assert(all_well_shaped(more)) by {
            assert forall|i: int| 0 <= i < more.len() implies well_shaped(#[trigger] more[i]) by {
                if i < seen.len() {
                    assert(more[i] == seen[i]);
                }
            }
        }
        lemma_more_declarations_read(tokens, d.next, more);
        assert(kinds(tokens).subrange(pos, parsed.next) =~= kinds(tokens).subrange(pos, d.next)
            + kinds(tokens).subrange(d.next, parsed.next));
        assert(written_declarations(more) + kinds(tokens).subrange(d.next, parsed.next)
            =~= written_declarations(seen) + kinds(tokens).subrange(pos, parsed.next));
    }
}

/// Parsing is faithful to the tokens: a unit that parses from offset `pos`
/// consists of well-shaped declarations; written as tokens they are exactly
/// the tokens from `pos` up to where parsing ended; and parsing ended at the
/// end of input.
pub proof fn law_parsed_file_reads_its_tokens(tokens: Seq<PositionedTokenView>, pos: int)
    requires
        0 <= pos <= tokens.len(),
        file_rule(tokens, pos).result is Ok,
    ensures
        all_well_shaped(file_rule(tokens, pos).result->Ok_0.declarations),
        reads(
            tokens,
            pos,
            file_rule(tokens, pos).next,
            written_declarations(file_rule(tokens, pos).result->Ok_0.declarations),
        ),
        token_at(tokens, file_rule(tokens, pos).next) == TokenView::Eof,
{
    let none = Seq::<DeclarationView>::empty();
    lemma_more_declarations_read(tokens, pos, none);
    let end = file_rule(tokens, pos).next;
    assert(written_declarations(none) + kinds(tokens).subrange(pos, end) =~= kinds(
        tokens,
    ).subrange(pos, end));
}

/// Further names as they are written behind a first name: comma, name,
/// comma, name.
pub open spec fn continued(names: Seq<Seq<char>>) -> Seq<TokenView>
    decreases names.len(),
{
    if names.len() == 0 {
        Seq::empty()
    } else {
        seq![TokenView::Comma, TokenView::Identifier(names[0])] + continued(names.drop_first())
    }
}

/// One more name at the end is one more comma and name at the end.
pub proof fn lemma_continued_push(names: Seq<Seq<char>>, name: Seq<char>)
    ensures
        continued(names.push(name)) == continued(names) + seq![
            TokenView::Comma,
            TokenView::Identifier(name),
        ],
    decreases names.len(),
{
    let more = names.push(name);
    if names.len() == 0 {
        assert(more.drop_first() =~= Seq::<Seq<char>>::empty());
        assert(continued(more.drop_first()) =~= Seq::<TokenView>::empty());
        assert(continued(more) =~= continued(names) + seq![
            TokenView::Comma,
            TokenView::Identifier(name),
        ]);
    } else {
        lemma_continued_push(names.drop_first(), name);
        assert(more.drop_first() =~= names.drop_first().push(name));
        assert(continued(more) =~= continued(names) + seq![
            TokenView::Comma,
            TokenView::Identifier(name),
        ]);
    }
}

/// A list of names is written as its first name and the others behind it.
pub proof fn lemma_listed_from_the_front(names: Seq<Seq<char>>)
    requires
        names.len() > 0,
    ensures
        listed(names) == seq![TokenView::Identifier(names[0])] + continued(names.drop_first()),
    decreases names.len(),
{
    if names.len() == 1 {
        assert(names.drop_first() =~= Seq::<Seq<char>>::empty());
        assert(listed(names) =~= seq![TokenView::Identifier(names[0])] + continued(
            names.drop_first(),
        ));
    } else {
        let front = names.drop_last();
        lemma_listed_from_the_front(front);
        lemma_continued_push(front.drop_first(), names.last());
        assert(front.drop_first().push(names.last()) =~= names.drop_first());
        assert(listed(names) =~= seq![TokenView::Identifier(names[0])] + continued(
            names.drop_first(),
        ));
    }
}

/// Steps are written as the first step and the others behind it.
pub proof fn lemma_steps_from_the_front(steps: Seq<SequenceStepView>)
    requires
        steps.len() > 0,
    ensures
        written_steps(steps) == written_step(steps[0]) + written_steps(steps.drop_first()),
    decreases steps.len(),
{
    if steps.len() == 1 {
        assert(steps =~= seq![steps[0]]);
        lemma_written_one_step(steps[0]);
        assert(steps.drop_first() =~= Seq::<SequenceStepView>::empty());
        assert(written_step(steps[0]) + written_steps(steps.drop_first()) =~= written_step(
            steps[0],
        ));
    } else {
        let front = steps.drop_last();
        lemma_steps_from_the_front(front);
        assert(steps.drop_first().drop_last() =~= front.drop_first());
        assert(steps.drop_first().last() == steps.last());
        assert(written_steps(steps) =~= written_step(steps[0]) + written_steps(
            steps.drop_first(),
        ));
    }
}

/// Declarations are written as the first declaration and the others behind
/// it.
pub proof fn lemma_declarations_from_the_front(declarations: Seq<DeclarationView>)
    requires
        declarations.len() > 0,
    ensures
        written_declarations(declarations) == written_declaration(declarations[0])
            + written_declarations(declarations.drop_first()),
    decreases declarations.len(),
{
    if declarations.len() == 1 {
        assert(declarations.drop_last() =~= Seq::<DeclarationView>::empty());
        assert(declarations.drop_first() =~= Seq::<DeclarationView>::empty());
        assert(written_declarations(declarations.drop_last()) =~= Seq::<TokenView>::empty());
        assert(written_declarations(declarations) =~= written_declaration(declarations[0])
            + written_declarations(declarations.drop_first()));
    } else {
        let front = declarations.drop_last();
        lemma_declarations_from_the_front(front);
        assert(declarations.drop_first().drop_last() =~= front.drop_first());
        assert(declarations.drop_first().last() == declarations.last());
        assert(written_declarations(declarations) =~= written_declaration(declarations[0])
            + written_declarations(declarations.drop_first()));
    }
}

/// Further names that are written behind `pos`, and are not followed by a
/// comma, are parsed back.
pub proof fn lemma_more_names_parsed(
    tokens: Seq<PositionedTokenView>,
    pos: int,
    end: int,
    seen: Seq<Seq<char>>,
    rest: Seq<Seq<char>>,
)
    requires
        reads(tokens, pos, end, continued(rest)),
        token_at(tokens, end) != TokenView::Comma,
    ensures
        more_names_rule(tokens, pos, seen) == (Parsed {
            result: Ok::<Seq<Seq<char>>, Seq<char>>(seen + rest),
            next: end,
        }),
    decreases rest.len(),
{
    if rest.len() == 0 {
        assert(kinds(tokens).subrange(pos, end).len() == 0);
        assert(seen + rest =~= seen);
    } else {
        let head = seq![TokenView::Comma, TokenView::Identifier(rest[0])];
        lemma_reads_split(tokens, pos, end, head, continued(rest.drop_first()));
        lemma_reads_first(tokens, pos, pos + 2, head, 0);
        lemma_reads_first(tokens, pos, pos + 2, head, 1);
        assert(token_at(tokens, pos) == TokenView::Comma);
        assert(name_rule(tokens, pos + 1) == (Parsed {
            result: Ok::<Seq<char>, Seq<char>>(rest[0]),
            next: pos + 2,
        }));
        lemma_more_names_parsed(tokens, pos + 2, end, seen.push(rest[0]), rest.drop_first());
        assert(seen.push(rest[0]) + rest.drop_first() =~= seen + rest);
    }
}

/// A list of names that is written at `pos` is parsed back.
pub proof fn lemma_names_parsed(
    tokens: Seq<PositionedTokenView>,
    pos: int,
    end: int,
    names: Seq<Seq<char>>,
)
    requires
        names.len() > 0,
        reads(tokens, pos, end, written_names(names)),
    ensures
        names_rule(tokens, pos) == (Parsed {
            result: Ok::<Seq<Seq<char>>, Seq<char>>(names),
            next: end,
        }),
{
    lemma_listed_from_the_front(names);
    let open = seq![TokenView::LeftBrace];
    let close = seq![TokenView::RightBrace];
    let first = seq![TokenView::Identifier(names[0])];
    let others = continued(names.drop_first());
    lemma_reads_split(tokens, pos, end, open + listed(names), close);
    let inner = end - 1;
    lemma_reads_split(tokens, pos, inner, open, listed(names));
    lemma_reads_split(tokens, pos + 1, inner, first, others);
    lemma_reads_first(tokens, pos, pos + 1, open, 0);
    lemma_reads_first(tokens, pos + 1, pos + 2, first, 0);
    lemma_reads_first(tokens, inner, end, close, 0);
    lemma_more_names_parsed(tokens, pos + 2, inner, seq![names[0]], names.drop_first());
    assert(seq![names[0]] + names.drop_first() =~= names);
}

/// An endpoint that is written at `pos` is parsed back.
pub proof fn lemma_state_ref_parsed(tokens: Seq<PositionedTokenView>, pos: int, r: StateRefView)
    requires
        reads(tokens, pos, pos + 4, written_state_ref(r)),
    ensures
        state_ref_rule(tokens, pos) == (Parsed {
            result: Ok::<StateRefView, Seq<char>>(r),
            next: pos + 4,
        }),
{
    let w = written_state_ref(r);
    lemma_reads_first(tokens, pos, pos + 4, w, 0);
    lemma_reads_first(tokens, pos, pos + 4, w, 1);
    lemma_reads_first(tokens, pos, pos + 4, w, 2);
    lemma_reads_first(tokens, pos, pos + 4, w, 3);
}

/// A step that is written at `pos` is parsed back.
pub proof fn lemma_step_parsed(tokens: Seq<PositionedTokenView>, pos: int, step: SequenceStepView)
    requires
        reads(tokens, pos, pos + 11, written_step(step)),
    ensures
        step_rule(tokens, pos) == (Parsed {
            result: Ok::<SequenceStepView, Seq<char>>(step),
            next: pos + 11,
        }),
{
    let head = seq![TokenView::Identifier(step.action_name), TokenView::Colon];
    let arrow = seq![TokenView::Arrow];
    lemma_reads_split(
        tokens,
        pos,
        pos + 11,
        head + written_state_ref(step.from) + arrow,
        written_state_ref(step.to),
    );
    lemma_reads_split(tokens, pos, pos + 7, head + written_state_ref(step.from), arrow);
    lemma_reads_split(tokens, pos, pos + 6, head, written_state_ref(step.from));
    lemma_reads_first(tokens, pos, pos + 2, head, 0);
    lemma_reads_first(tokens, pos, pos + 2, head, 1);
    lemma_reads_first(tokens, pos + 6, pos + 7, arrow, 0);
    lemma_state_ref_parsed(tokens, pos + 2, step.from);
    lemma_state_ref_parsed(tokens, pos + 7, step.to);
}

/// Further steps that are written behind `pos`, and are not followed by an
/// identifier, are parsed back.
pub proof fn lemma_more_steps_parsed(
    tokens: Seq<PositionedTokenView>,
    pos: int,
    end: int,
    seen: Seq<SequenceStepView>,
    rest: Seq<SequenceStepView>,
)
    requires
        reads(tokens, pos, end, written_steps(rest)),
        !(token_at(tokens, end) is Identifier),
    ensures
        more_steps_rule(tokens, pos, seen) == (Parsed {
            result: Ok::<Seq<SequenceStepView>, Seq<char>>(seen + rest),
            next: end,
        }),
    decreases rest.len(),
{
    if rest.len() == 0 {
        assert(seen + rest =~= seen);
    } else {
        lemma_steps_from_the_front(rest);
        lemma_reads_split(tokens, pos, end, written_step(rest[0]), written_steps(rest.drop_first()));
        lemma_reads_first(tokens, pos, pos + 11, written_step(rest[0]), 0);
        lemma_step_parsed(tokens, pos, rest[0]);
        lemma_more_steps_parsed(tokens, pos + 11, end, seen.push(rest[0]), rest.drop_first());
        assert(seen.push(rest[0]) + rest.drop_first() =~= seen + rest);
    }
}

/// What may stand behind a declaration for it to be parsed back: behind a
/// state without a role list, anything but `roles`; behind a sequence,
/// anything but an identifier.
pub open spec fn may_follow(declaration: DeclarationView, next: TokenView) -> bool {
    match declaration {
        DeclarationView::State(d) => d.allowed_roles is Some || next != TokenView::Roles,
        DeclarationView::Sequence(d) => !(next is Identifier),
        _ => true,
    }
}

/// A well-shaped declaration that is written at `pos` is parsed back, if
/// what follows it may follow it.
pub proof fn lemma_declaration_parsed(
    tokens: Seq<PositionedTokenView>,
    pos: int,
    end: int,
    declaration: DeclarationView,
)
    requires
        well_shaped(declaration),
        reads(tokens, pos, end, written_declaration(declaration)),
        may_follow(declaration, token_at(tokens, end)),
    ensures
        declaration_rule(tokens, pos) == (Parsed {
            result: Ok::<DeclarationView, Seq<char>>(declaration),
            next: end,
        }),
{
    match declaration {
        DeclarationView::Roles(d) => {
            let head = seq![TokenView::Roles];
            lemma_reads_split(tokens, pos, end, head, written_names(d.roles));
            lemma_reads_first(tokens, pos, pos + 1, head, 0);
            lemma_names_parsed(tokens, pos + 1, end, d.roles);
        },
        DeclarationView::State(d) => {
            lemma_state_parsed(tokens, pos, end, d);
        },
        DeclarationView::Sequence(d) => {
            lemma_sequence_parsed(tokens, pos, end, d);
        },
        DeclarationView::Group(d) => {
            let head = seq![TokenView::Group, TokenView::Identifier(d.name)];
            lemma_reads_split(tokens, pos, end, head, written_names(d.states));
            lemma_reads_first(tokens, pos, pos + 2, head, 0);
            lemma_reads_first(tokens, pos, pos + 2, head, 1);
            lemma_names_parsed(tokens, pos + 2, end, d.states);
        },
    }
}

/// A well-shaped state declaration that is written at `pos` is parsed back,
/// if it has a role list or is not followed by `roles`.
pub proof fn lemma_state_parsed(
    tokens: Seq<PositionedTokenView>,
    pos: int,
    end: int,
    state: StateView,
)
    requires
        well_shaped(DeclarationView::State(state)),
        reads(tokens, pos, end, written_state(state)),
        state.allowed_roles is Some || token_at(tokens, end) != TokenView::Roles,
    ensures
        state_rule(tokens, pos) == (Parsed {
            result: Ok::<StateView, Seq<char>>(state),
            next: end,
        }),
{
    let head = seq![TokenView::State, TokenView::Identifier(state.name)];
    match state.allowed_roles {
        Some(roles) => {
            let keyword = seq![TokenView::Roles];
            lemma_reads_split(tokens, pos, end, head, keyword + written_names(roles));
            lemma_reads_split(tokens, pos + 2, end, keyword, written_names(roles));
            lemma_reads_first(tokens, pos, pos + 2, head, 0);
            lemma_reads_first(tokens, pos, pos + 2, head, 1);
            lemma_reads_first(tokens, pos + 2, pos + 3, keyword, 0);
            lemma_names_parsed(tokens, pos + 3, end, roles);
        },
        None => {
            lemma_reads_split(tokens, pos, end, head, Seq::<TokenView>::empty());
            lemma_reads_first(tokens, pos, pos + 2, head, 0);
            lemma_reads_first(tokens, pos, pos + 2, head, 1);
        },
    }
}

/// A sequence declaration with a step that is written at `pos` is parsed
/// back, if it is not followed by an identifier.
pub proof fn lemma_sequence_parsed(
    tokens: Seq<PositionedTokenView>,
    pos: int,
    end: int,
    sequence: SequenceView,
)
    requires
        sequence.steps.len() > 0,
        reads(tokens, pos, end, written_sequence(sequence)),
        !(token_at(tokens, end) is Identifier),
    ensures
        sequence_rule(tokens, pos) == (Parsed {
            result: Ok::<SequenceView, Seq<char>>(sequence),
            next: end,
        }),
{
    let head = seq![
        TokenView::Sequence,
        TokenView::Identifier(sequence.name),
        TokenView::Colon,
    ];
    let steps = sequence.steps;
    lemma_steps_from_the_front(steps);
    lemma_reads_split(tokens, pos, end, head, written_steps(steps));
    lemma_reads_split(tokens, pos + 3, end, written_step(steps[0]), written_steps(steps.drop_first()));
    lemma_reads_first(tokens, pos, pos + 3, head, 0);
    lemma_reads_first(tokens, pos, pos + 3, head, 1);
    lemma_reads_first(tokens, pos, pos + 3, head, 2);
    lemma_step_parsed(tokens, pos + 3, steps[0]);
    lemma_more_steps_parsed(tokens, pos + 14, end, seq![steps[0]], steps.drop_first());
    assert(seq![steps[0]] + steps.drop_first() =~= steps);
}

/// No state without a role list is directly followed by a roles declaration,
/// which it would take as its role list.
pub open spec fn unambiguous(declarations: Seq<DeclarationView>) -> bool {
    forall|i: int|
        0 <= i < declarations.len() - 1 ==> !(#[trigger] declarations[i] is State
            && declarations[i]->State_0.allowed_roles is None && declarations[i + 1] is Roles)
}

/// A well-shaped declaration is written with a keyword first.
pub proof fn lemma_written_declaration_starts_with_keyword(declaration: DeclarationView)
    requires
        well_shaped(declaration),
    ensures
        written_declaration(declaration).len() > 0,
        written_declaration(declaration)[0] == (match declaration {
            DeclarationView::Roles(_) => TokenView::Roles,
            DeclarationView::State(_) => TokenView::State,
            DeclarationView::Sequence(_) => TokenView::Sequence,
            DeclarationView::Group(_) => TokenView::Group,
        }),
{
}

/// Further declarations that are written behind `pos` and followed by the
/// end of input are parsed back.
pub proof fn lemma_more_declarations_parsed(
    tokens: Seq<PositionedTokenView>,
    pos: int,
    end: int,
    seen: Seq<DeclarationView>,
    rest: Seq<DeclarationView>,
)
    requires
        all_well_shaped(rest),
        unambiguous(rest),
        reads(tokens, pos, end, written_declarations(rest)),
        token_at(tokens, end) == TokenView::Eof,
    ensures
        more_declarations_rule(tokens, pos, seen) == (Parsed {
            result: Ok::<Seq<DeclarationView>, Seq<char>>(seen + rest),
            next: end,
        }),
    decreases rest.len(),
{
    if rest.len() == 0 {
        assert(seen + rest =~= seen);
    } else {
        let first = rest[0];
        let others = rest.drop_first();
        lemma_declarations_from_the_front(rest);
        lemma_written_declaration_starts_with_keyword(first);
        let mid = pos + written_declaration(first).len();
        lemma_reads_split(tokens, pos, end, written_declaration(first), written_declarations(others));
        lemma_reads_first(tokens, pos, mid, written_declaration(first), 0);
        assert(all_well_shaped(others)) by {
            assert forall|i: int| 0 <= i < others.len() implies well_shaped(
                #[trigger] others[i],
            ) by {
                assert(others[i] == rest[i + 1]);
            }
        }
        assert(unambiguous(others)) by {
            assert forall|i: int| 0 <= i < others.len() - 1 implies !(#[trigger] others[i] is State
                && others[i]->State_0.allowed_roles is None && others[i + 1] is Roles) by {
                assert(others[i] == rest[i + 1]);
                assert(others[i + 1] == rest[i + 2]);
            }
        }
        assert(may_follow(first, token_at(tokens, mid))) by {
            if others.len() > 0 {
                let second = others[0];
                assert(second == rest[1]);
                lemma_declarations_from_the_front(others);
                lemma_written_declaration_starts_with_keyword(second);
                lemma_reads_split(
                    tokens,
                    mid,
                    end,
                    written_declaration(second),
                    written_declarations(others.drop_first()),
                );
                lemma_reads_first(
                    tokens,
                    mid,
                    mid + written_declaration(second).len(),
                    written_declaration(second),
                    0,
                );
                assert(rest[0] == first);
            } else {
                assert(written_declarations(others) =~= Seq::<TokenView>::empty());
            }
        }
        lemma_declaration_parsed(tokens, pos, mid, first);
        lemma_more_declarations_parsed(tokens, mid, end, seen.push(first), others);
        assert(seen.push(first) + others =~= seen + rest);
    }
}

/// Parsing is complete: well-shaped declarations, written as tokens from
/// offset `pos` on and followed by the end of input, parse back into exactly
/// those declarations, provided that no state without a role list is
/// directly followed by a roles declaration.
pub proof fn law_written_file_is_parsed_back(
    tokens: Seq<PositionedTokenView>,
    pos: int,
    end: int,
    declarations: Seq<DeclarationView>,
)
    requires
        all_well_shaped(declarations),
        unambiguous(declarations),
        reads(tokens, pos, end, written_declarations(declarations)),
        token_at(tokens, end) == TokenView::Eof,
    ensures
        file_rule(tokens, pos) == (Parsed {
            result: Ok::<MartialFileView, Seq<char>>(MartialFileView { declarations }),
            next: end,
        }),
{
    let none = Seq::<DeclarationView>::empty();
    lemma_more_declarations_parsed(tokens, pos, end, none, declarations);
    assert(none + declarations =~= declarations);
}

/// The exception is real: a state without a role list, directly followed by
/// a roles declaration, is parsed as a state with that role list.
pub proof fn law_open_state_takes_following_roles(
    tokens: Seq<PositionedTokenView>,
    pos: int,
    end: int,
    name: Seq<char>,
    roles: Seq<Seq<char>>,
)
    requires
        roles.len() > 0,
        reads(
            tokens,
            pos,
            end,
            written_declarations(
                seq![
                    DeclarationView::State(StateView { name, allowed_roles: None }),
                    DeclarationView::Roles(RolesDeclView { roles }),
                ],
            ),
        ),
    ensures
        declaration_rule(tokens, pos) == (Parsed {
            result: Ok::<DeclarationView, Seq<char>>(
                DeclarationView::State(StateView { name, allowed_roles: Some(roles) }),
            ),
            next: end,
        }),
{
    let open = DeclarationView::State(StateView { name, allowed_roles: None });
    let closed = StateView { name, allowed_roles: Some(roles) };
    let decl = DeclarationView::Roles(RolesDeclView { roles });
    let both = seq![open, decl];
    lemma_declarations_from_the_front(both);
    assert(both.drop_first() =~= seq![decl]);
    lemma_declarations_from_the_front(seq![decl]);
    assert(seq![decl].drop_first() =~= Seq::<DeclarationView>::empty());
    assert(written_declarations(both) =~= written_state(closed));
    lemma_state_parsed(tokens, pos, end, closed);
    lemma_reads_first(tokens, pos, end, written_state(closed), 0);
}

} // verus!
