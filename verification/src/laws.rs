//! Laws of ingestion and validation.
//!
//! Each law is a proof function over the spec functions in which the
//! contracts of the validator are stated, so it holds of every run of the
//! validator.

use vstd::prelude::*;
use crate::ast::{DeclarationView, GroupDeclView, SequenceView, StateRefView, StateView};
use crate::semantic::{
    add_declaration, add_role, add_roles, all_named, broken_chain_error, duplicate_error,
    first_violation, group_names, ingest, lemma_first_some_absent, lemma_first_some_none,
    lookup_state, merged_wf, no_roles_error, nothing_merged, role_not_allowed_error,
    sequence_names,
    sequence_violation, state_names, state_ref_violation, step_context, step_outcomes,
    step_violation, Ingest, Merged,
};

verus! {

/// The roles that are declared once `roles` have been accepted are those
/// declared before together with `roles`; nothing else changes, and there is
/// no error unless a name is empty.
pub proof fn law_roles_accumulate(m: Merged, roles: Seq<Seq<char>>)
    requires
        all_named(roles),
    ensures
        add_roles(m, roles).error is None,
        add_roles(m, roles).merged.roles.to_set() == m.roles.to_set().union(roles.to_set()),
        add_roles(m, roles).merged.states == m.states,
        add_roles(m, roles).merged.sequences == m.sequences,
        add_roles(m, roles).merged.groups == m.groups,
    decreases roles.len(),
{
    if roles.len() == 0 {
        assert(roles.to_set() =~= Set::<Seq<char>>::empty());
        assert(m.roles.to_set().union(roles.to_set()) =~= m.roles.to_set());
    } else {
        let front = roles.drop_last();
        let last = roles.last();
        assert(all_named(front)) by {
            assert forall|i: int| 0 <= i < front.len() implies (#[trigger] front[i]).len() > 0 by {
                assert(front[i] == roles[i]);
            }
        }
        law_roles_accumulate(m, front);
        let before = add_roles(m, front).merged;
        let after = add_role(before, last).merged;
        assert(last.len() > 0);
        assert(after.roles.to_set() =~= before.roles.to_set().insert(last)) by {
            if before.roles.contains(last) {
            } else {
                assert forall|x: Seq<char>| after.roles.to_set().contains(x) implies before.roles.to_set().insert(
                    last,
                ).contains(x) by {
                    let i = choose|i: int| 0 <= i < after.roles.len() && after.roles[i] == x;
                    if i < before.roles.len() {
                        assert(before.roles[i] == x);
                    }
                }
                assert forall|x: Seq<char>|
                    before.roles.to_set().insert(last).contains(
                        x,
                    ) implies after.roles.to_set().contains(x) by {
                    if x == last {
                        assert(after.roles[before.roles.len() as int] == x);
                    } else {
                        let i = choose|i: int| 0 <= i < before.roles.len() && before.roles[i] == x;
                        assert(after.roles[i] == x);
                    }
                }
            }
        }
        assert(roles.to_set() =~= front.to_set().insert(last)) by {
            assert forall|x: Seq<char>| roles.to_set().contains(x) implies front.to_set().insert(
                last,
            ).contains(x) by {
                let i = choose|i: int| 0 <= i < roles.len() && roles[i] == x;
                if i < front.len() {
                    assert(front[i] == x);
                }
            }
            assert forall|x: Seq<char>|
                front.to_set().insert(last).contains(x) implies roles.to_set().contains(x) by {
                if x == last {
                    assert(roles[roles.len() - 1] == x);
                } else {
                    let i = choose|i: int| 0 <= i < front.len() && front[i] == x;
                    assert(roles[i] == x);
                }
            }
        }
        assert(after.roles.to_set() =~= m.roles.to_set().union(roles.to_set()));
    }
}

/// Role merge is commutative: two role declarations give the same set of
/// roles in either order.
pub proof fn law_role_merge_commutes(m: Merged, a: Seq<Seq<char>>, b: Seq<Seq<char>>)
    requires
        all_named(a),
        all_named(b),
    ensures
        add_roles(add_roles(m, a).merged, b).error is None,
        add_roles(add_roles(m, b).merged, a).error is None,
        add_roles(add_roles(m, a).merged, b).merged.roles.to_set() == add_roles(
            add_roles(m, b).merged,
            a,
        ).merged.roles.to_set(),
        add_roles(add_roles(m, a).merged, b).merged.roles.to_set() == m.roles.to_set().union(
            a.to_set(),
        ).union(b.to_set()),
{
    law_roles_accumulate(m, a);
    law_roles_accumulate(m, b);
    law_roles_accumulate(add_roles(m, a).merged, b);
    law_roles_accumulate(add_roles(m, b).merged, a);
    assert(m.roles.to_set().union(a.to_set()).union(b.to_set()) =~= m.roles.to_set().union(
        b.to_set(),
    ).union(a.to_set()));
}

/// Roles that are all declared already change nothing when they are declared
/// again.
pub proof fn law_known_roles_change_nothing(m: Merged, roles: Seq<Seq<char>>)
    requires
        all_named(roles),
        forall|i: int| 0 <= i < roles.len() ==> m.roles.contains(#[trigger] roles[i]),
    ensures
        add_roles(m, roles) == (Ingest { merged: m, error: None }),
    decreases roles.len(),
{
    if roles.len() > 0 {
        let front = roles.drop_last();
        assert forall|i: int| 0 <= i < front.len() implies (#[trigger] front[i]).len() > 0
            && m.roles.contains(front[i]) by {
            assert(front[i] == roles[i]);
        }
        law_known_roles_change_nothing(m, front);
        assert(m.roles.contains(roles[roles.len() - 1]));
    }
}

/// Role merge is idempotent: declaring the same roles a second time changes
/// nothing.
pub proof fn law_role_merge_idempotent(m: Merged, roles: Seq<Seq<char>>)
    requires
        all_named(roles),
    ensures
        add_roles(add_roles(m, roles).merged, roles) == add_roles(m, roles),
{
    law_roles_accumulate(m, roles);
    let once = add_roles(m, roles).merged;
    assert forall|i: int| 0 <= i < roles.len() implies once.roles.contains(
        #[trigger] roles[i],
    ) by {
        assert(roles.to_set().contains(roles[i]));
        assert(once.roles.to_set().contains(roles[i]));
    }
    law_known_roles_change_nothing(once, roles);
}

/// Role merge does not depend on how the roles are split over declarations:
/// one declaration of `a` followed by `b` gives what a declaration of `a`
/// and then one of `b` give.
pub proof fn law_role_merge_split(m: Merged, a: Seq<Seq<char>>, b: Seq<Seq<char>>)
    requires
        add_roles(m, a).error is None,
    ensures
        add_roles(m, a + b) == add_roles(add_roles(m, a).merged, b),
    decreases b.len(),
{
    if b.len() == 0 {
        assert(a + b =~= a);
    } else {
        assert((a + b).drop_last() =~= a + b.drop_last());
        assert((a + b).last() == b.last());
        law_role_merge_split(m, a, b.drop_last());
    }
}

/// A name that has been accepted stays accepted: ingesting declarations
/// removes no role, state, sequence or group.
pub proof fn law_ingest_keeps_names(m: Merged, declarations: Seq<DeclarationView>, name: Seq<char>)
    ensures
        m.roles.contains(name) ==> ingest(m, declarations).merged.roles.contains(name),
        state_names(m.states).contains(name) ==> state_names(
            ingest(m, declarations).merged.states,
        ).contains(name),
        sequence_names(m.sequences).contains(name) ==> sequence_names(
            ingest(m, declarations).merged.sequences,
        ).contains(name),
        group_names(m.groups).contains(name) ==> group_names(
            ingest(m, declarations).merged.groups,
        ).contains(name),
    decreases declarations.len(),
{
    if declarations.len() > 0 {
        law_ingest_keeps_names(m, declarations.drop_last(), name);
        let before = ingest(m, declarations.drop_last());
        if before.error is None {
            lemma_declaration_keeps_names(before.merged, declarations.last(), name);
        }
    }
}

/// Accepting one declaration removes no name.
pub proof fn lemma_declaration_keeps_names(m: Merged, declaration: DeclarationView, name: Seq<char>)
    ensures
        m.roles.contains(name) ==> add_declaration(m, declaration).merged.roles.contains(name),
        state_names(m.states).contains(name) ==> state_names(
            add_declaration(m, declaration).merged.states,
        ).contains(name),
        sequence_names(m.sequences).contains(name) ==> sequence_names(
            add_declaration(m, declaration).merged.sequences,
        ).contains(name),
        group_names(m.groups).contains(name) ==> group_names(
            add_declaration(m, declaration).merged.groups,
        ).contains(name),
{
    let after = add_declaration(m, declaration).merged;
    match declaration {
        DeclarationView::Roles(d) => {
            lemma_roles_keep_names(m, d.roles, name);
        },
        DeclarationView::State(d) => {
            if state_names(m.states).contains(name) {
                let i = choose|i: int|
                    0 <= i < state_names(m.states).len() && state_names(m.states)[i] == name;
                assert(state_names(after.states)[i] == name);
            }
        },
        DeclarationView::Sequence(d) => {
            if sequence_names(m.sequences).contains(name) {
                let i = choose|i: int|
                    0 <= i < sequence_names(m.sequences).len() && sequence_names(m.sequences)[i]
                        == name;
                assert(sequence_names(after.sequences)[i] == name);
            }
        },
        DeclarationView::Group(d) => {
            if group_names(m.groups).contains(name) {
                let i = choose|i: int|
                    0 <= i < group_names(m.groups).len() && group_names(m.groups)[i] == name;
                assert(group_names(after.groups)[i] == name);
            }
        },
    }
}

/// Accepting roles removes no role and touches nothing else.
pub proof fn lemma_roles_keep_names(m: Merged, roles: Seq<Seq<char>>, name: Seq<char>)
    ensures
        m.roles.contains(name) ==> add_roles(m, roles).merged.roles.contains(name),
        add_roles(m, roles).merged.states == m.states,
        add_roles(m, roles).merged.sequences == m.sequences,
        add_roles(m, roles).merged.groups == m.groups,
    decreases roles.len(),
{
    if roles.len() > 0 {
        lemma_roles_keep_names(m, roles.drop_last(), name);
        let before = add_roles(m, roles.drop_last());
        if before.error is None && before.merged.roles.contains(name) {
            let after = add_role(before.merged, roles.last()).merged;
            let i = choose|i: int| 0 <= i < before.merged.roles.len() && before.merged.roles[i] == name;
            assert(after.roles[i] == name);
        }
    }
}

/// Uniqueness of states: a state declared under a name that is taken is
/// rejected as already defined, whatever has been ingested in between.
pub proof fn law_second_state_rejected(
    m: Merged,
    between: Seq<DeclarationView>,
    state: StateView,
)
    requires
        state.name.len() > 0,
        state_names(m.states).contains(state.name),
    ensures
        ingest(m, between.push(DeclarationView::State(state))).error is Some,
        ingest(m, between).error is None ==> ingest(
            m,
            between.push(DeclarationView::State(state)),
        ).error == Some(duplicate_error("State"@, "state"@, state.name)),
{
    law_ingest_keeps_names(m, between, state.name);
    assert(between.push(DeclarationView::State(state)).drop_last() =~= between);
}

/// Uniqueness of sequences: a sequence declared under a name that is taken
/// is rejected as already defined, whatever has been ingested in between.
pub proof fn law_second_sequence_rejected(
    m: Merged,
    between: Seq<DeclarationView>,
    sequence: SequenceView,
)
    requires
        sequence.name.len() > 0,
        sequence_names(m.sequences).contains(sequence.name),
    ensures
        ingest(m, between.push(DeclarationView::Sequence(sequence))).error is Some,
        ingest(m, between).error is None ==> ingest(
            m,
            between.push(DeclarationView::Sequence(sequence)),
        ).error == Some(duplicate_error("Sequence"@, "sequence"@, sequence.name)),
{
    law_ingest_keeps_names(m, between, sequence.name);
    assert(between.push(DeclarationView::Sequence(sequence)).drop_last() =~= between);
}

/// Uniqueness of groups: a group declared under a name that is taken is
/// rejected as already defined, whatever has been ingested in between.
pub proof fn law_second_group_rejected(
    m: Merged,
    between: Seq<DeclarationView>,
    group: GroupDeclView,
)
    requires
        group.name.len() > 0,
        group_names(m.groups).contains(group.name),
    ensures
        ingest(m, between.push(DeclarationView::Group(group))).error is Some,
        ingest(m, between).error is None ==> ingest(
            m,
            between.push(DeclarationView::Group(group)),
        ).error == Some(duplicate_error("Group"@, "group"@, group.name)),
{
    law_ingest_keeps_names(m, between, group.name);
    assert(between.push(DeclarationView::Group(group)).drop_last() =~= between);
}

/// An endpoint passes its check exactly when its state is declared, its role
/// is declared, and the state, if it restricts its roles, lists the role;
/// and the state is declared exactly when its name is the name of an
/// accumulated state. An endpoint that does not pass is reported under the
/// context that was given.
pub proof fn law_endpoint_check(m: Merged, r: StateRefView, context: Seq<char>)
    ensures
        state_ref_violation(m, r, context) is None <==> {
            &&& lookup_state(m.states, r.state) is Some
            &&& m.roles.contains(r.role)
            &&& match lookup_state(m.states, r.state)->0.allowed_roles {
                Some(allowed) => allowed.contains(r.role),
                None => true,
            }
        },
        lookup_state(m.states, r.state) is Some <==> state_names(m.states).contains(r.state),
        lookup_state(m.states, r.state) is Some ==> lookup_state(m.states, r.state)->0.name
            == r.state,
        state_ref_violation(m, r, context) is Some ==> state_ref_violation(
            m,
            r,
            context,
        )->0.context == context,
{
    let names = state_names(m.states);
    names.index_of_first_ensures(r.state);
    if lookup_state(m.states, r.state) is Some {
        let i = names.index_of_first(r.state)->0;
        assert(names[i] == m.states[i].name);
    }
}

/// A state declared without a role list admits every declared role.
pub proof fn law_open_state_admits_any_role(m: Merged, r: StateRefView, context: Seq<char>)
    requires
        lookup_state(m.states, r.state) is Some,
        lookup_state(m.states, r.state)->0.allowed_roles is None,
        m.roles.contains(r.role),
    ensures
        state_ref_violation(m, r, context) is None,
{
}

/// A state declared with a role list admits the listed roles only: a role
/// that is declared and not listed is reported as not allowed.
pub proof fn law_closed_state_rejects_other_roles(m: Merged, r: StateRefView, context: Seq<char>)
    requires
        lookup_state(m.states, r.state) is Some,
        lookup_state(m.states, r.state)->0.allowed_roles is Some,
        !lookup_state(m.states, r.state)->0.allowed_roles->0.contains(r.role),
        m.roles.contains(r.role),
    ensures
        state_ref_violation(m, r, context) == Some(
            role_not_allowed_error(
                r.role,
                r.state,
                lookup_state(m.states, r.state)->0.allowed_roles->0,
                context,
            ),
        ),
{
}

/// Chain continuity: a step whose endpoints resolve and which does not start
/// where the step before it ends is reported as a broken chain, with both
/// endpoints in the message; so its sequence does not validate.
pub proof fn law_broken_chain_reported(m: Merged, sequence: SequenceView, k: int)
    requires
        0 < k < sequence.steps.len(),
        state_ref_violation(
            m,
            sequence.steps[k].from,
            step_context(sequence.name, k, sequence.steps[k].action_name),
        ) is None,
        state_ref_violation(
            m,
            sequence.steps[k].to,
            step_context(sequence.name, k, sequence.steps[k].action_name),
        ) is None,
        sequence.steps[k - 1].to != sequence.steps[k].from,
    ensures
        step_violation(m, sequence, k) == Some(
            broken_chain_error(
                sequence.steps[k - 1].to,
                sequence.steps[k].from,
                step_context(sequence.name, k, sequence.steps[k].action_name),
            ),
        ),
        sequence_violation(m, sequence) is Some,
{
    let outcomes = step_outcomes(m, sequence);
    assert(outcomes[k] is Some);
    if sequence_violation(m, sequence) is None {
        lemma_first_some_absent(outcomes);
    }
}

/// Chain continuity: a sequence whose endpoints all resolve and whose steps
/// each start where the step before ends passes the check of sequences.
pub proof fn law_continuous_chain_passes(m: Merged, sequence: SequenceView)
    requires
        sequence.steps.len() > 0,
        forall|k: int|
            0 <= k < sequence.steps.len() ==> state_ref_violation(
                m,
                (#[trigger] sequence.steps[k]).from,
                step_context(sequence.name, k, sequence.steps[k].action_name),
            ) is None && state_ref_violation(
                m,
                sequence.steps[k].to,
                step_context(sequence.name, k, sequence.steps[k].action_name),
            ) is None,
        forall|k: int|
            0 < k < sequence.steps.len() ==> sequence.steps[k - 1].to == (
            #[trigger] sequence.steps[k]).from,
    ensures
        sequence_violation(m, sequence) is None,
{
    let outcomes = step_outcomes(m, sequence);
    assert forall|k: int| 0 <= k < outcomes.len() implies outcomes[k] is None by {
        let step = sequence.steps[k];
        assert(state_ref_violation(
            m,
            step.from,
            step_context(sequence.name, k, step.action_name),
        ) is None);
    }
    lemma_first_some_none(outcomes);
}

/// Without a role there is no valid system: validation reports that no role
/// is defined, whatever else has been declared.
pub proof fn law_no_roles_no_system(m: Merged, system_name: Seq<char>)
    requires
        m.roles.len() == 0,
    ensures
        first_violation(m, system_name) == Some(no_roles_error(system_name)),
{
}

/// Roles come from roles declarations only: ingesting declarations none of
/// which declares roles leaves the roles as they were.
pub proof fn law_roles_need_roles_declaration(m: Merged, declarations: Seq<DeclarationView>)
    requires
        forall|i: int| 0 <= i < declarations.len() ==> !(#[trigger] declarations[i] is Roles),
    ensures
        ingest(m, declarations).merged.roles == m.roles,
    decreases declarations.len(),
{
    if declarations.len() > 0 {
        let front = declarations.drop_last();
        assert forall|i: int| 0 <= i < front.len() implies !(#[trigger] front[i] is Roles) by {
            assert(front[i] == declarations[i]);
        }
        law_roles_need_roles_declaration(m, front);
        assert(!(declarations[declarations.len() - 1] is Roles));
    }
}

/// A validator that has never ingested a roles declaration cannot produce a
/// system, however many states, sequences and groups it has ingested.
pub proof fn law_never_a_role_never_a_system(
    declarations: Seq<DeclarationView>,
    system_name: Seq<char>,
)
    requires
        forall|i: int| 0 <= i < declarations.len() ==> !(#[trigger] declarations[i] is Roles),
    ensures
        first_violation(ingest(nothing_merged(), declarations).merged, system_name) == Some(
            no_roles_error(system_name),
        ),
{
    law_roles_need_roles_declaration(nothing_merged(), declarations);
}

/// The roles that a list of declarations declares, in order.
pub open spec fn declared_roles(declarations: Seq<DeclarationView>) -> Seq<Seq<char>>
    decreases declarations.len(),
{
    if declarations.len() == 0 {
        Seq::empty()
    } else {
        let before = declared_roles(declarations.drop_last());
        match declarations.last() {
            DeclarationView::Roles(d) => before + d.roles,
            _ => before,
        }
    }
}

/// The states that a list of declarations declares, in order.
pub open spec fn declared_states(declarations: Seq<DeclarationView>) -> Seq<StateView>
    decreases declarations.len(),
{
    if declarations.len() == 0 {
        Seq::empty()
    } else {
        let before = declared_states(declarations.drop_last());
        match declarations.last() {
            DeclarationView::State(d) => before.push(d),
            _ => before,
        }
    }
}

/// The sequences that a list of declarations declares, in order.
pub open spec fn declared_sequences(declarations: Seq<DeclarationView>) -> Seq<SequenceView>
    decreases declarations.len(),
{
    if declarations.len() == 0 {
        Seq::empty()
    } else {
        let before = declared_sequences(declarations.drop_last());
        match declarations.last() {
            DeclarationView::Sequence(d) => before.push(d),
            _ => before,
        }
    }
}

/// The groups that a list of declarations declares, in order.
pub open spec fn declared_groups(declarations: Seq<DeclarationView>) -> Seq<GroupDeclView>
    decreases declarations.len(),
{
    if declarations.len() == 0 {
        Seq::empty()
    } else {
        let before = declared_groups(declarations.drop_last());
        match declarations.last() {
            DeclarationView::Group(d) => before.push(d),
            _ => before,
        }
    }
}

/// The names `new` can be taken in beside the names `old`: none of them is
/// empty, and together with `old` no name occurs twice.
pub open spec fn fresh(old_names: Seq<Seq<char>>, new_names: Seq<Seq<char>>) -> bool {
    &&& all_named(new_names)
    &&& (old_names + new_names).no_duplicates()
}

/// The declarations can all be accepted on top of `m`: no name is empty and,
/// within each kind but the roles, no name is taken twice.
pub open spec fn acceptable(m: Merged, declarations: Seq<DeclarationView>) -> bool {
    &&& all_named(declared_roles(declarations))
    &&& fresh(state_names(m.states), state_names(declared_states(declarations)))
    &&& fresh(sequence_names(m.sequences), sequence_names(declared_sequences(declarations)))
    &&& fresh(group_names(m.groups), group_names(declared_groups(declarations)))
}

/// Roles are accepted exactly when none of them has an empty name.
pub proof fn law_roles_accepted_iff_named(m: Merged, roles: Seq<Seq<char>>)
    ensures
        add_roles(m, roles).error is None <==> all_named(roles),
    decreases roles.len(),
{
    if all_named(roles) {
        law_roles_accumulate(m, roles);
    }
    if roles.len() > 0 && add_roles(m, roles).error is None {
        let front = roles.drop_last();
        law_roles_accepted_iff_named(m, front);
        assert forall|i: int| 0 <= i < roles.len() implies (#[trigger] roles[i]).len() > 0 by {
            if i < front.len() {
                assert(front[i] == roles[i]);
            }
        }
    }
}

/// One more name is fresh beside `old` exactly when the names before it are,
/// and it is neither empty nor among them or `old`.
pub proof fn lemma_fresh_push(old_names: Seq<Seq<char>>, names: Seq<Seq<char>>, name: Seq<char>)
    ensures
        fresh(old_names, names.push(name)) <==> (fresh(old_names, names) && name.len() > 0 && !(
        old_names + names).contains(name)),
{
    let before = old_names + names;
    let after = old_names + names.push(name);
    assert(after =~= before.push(name));
    if fresh(old_names, names.push(name)) {
        assert forall|i: int| 0 <= i < names.len() implies (#[trigger] names[i]).len() > 0 by {
            assert(names.push(name)[i] == names[i]);
        }
        assert(names.push(name)[names.len() as int] == name);
        assert forall|i: int, j: int| 0 <= i < before.len() && 0 <= j < before.len() && i
            != j implies before[i] != before[j] by {
            assert(after[i] == before[i] && after[j] == before[j]);
        }
        if before.contains(name) {
            let i = choose|i: int| 0 <= i < before.len() && before[i] == name;
            assert(after[i] == name && after[before.len() as int] == name);
        }
    }
    if fresh(old_names, names) && name.len() > 0 && !before.contains(name) {
        assert forall|i: int| 0 <= i < names.push(name).len() implies (#[trigger] names.push(
            name,
        )[i]).len() > 0 by {
            if i < names.len() {
                assert(names.push(name)[i] == names[i]);
            }
        }
        assert forall|i: int, j: int| 0 <= i < after.len() && 0 <= j < after.len() && i
            != j implies after[i] != after[j] by {
            if i < before.len() && j < before.len() {
            } else if i < before.len() {
                assert(before[i] == after[i]);
            } else {
                assert(before[j] == after[j]);
            }
        }
    }
}

/// Names are named when those before the last and the last are.
pub proof fn lemma_all_named_concat(a: Seq<Seq<char>>, b: Seq<Seq<char>>)
    ensures
        all_named(a + b) <==> (all_named(a) && all_named(b)),
{
    let all = a + b;
    if all_named(all) {
        assert forall|i: int| 0 <= i < a.len() implies (#[trigger] a[i]).len() > 0 by {
            assert(all[i] == a[i]);
        }
        assert forall|i: int| 0 <= i < b.len() implies (#[trigger] b[i]).len() > 0 by {
            assert(all[a.len() + i] == b[i]);
        }
    }
    if all_named(a) && all_named(b) {
        assert forall|i: int| 0 <= i < all.len() implies (#[trigger] all[i]).len() > 0 by {
            if i < a.len() {
                assert(all[i] == a[i]);
            } else {
                assert(all[i] == b[i - a.len()]);
            }
        }
    }
}

/// Ingestion succeeds exactly when the declarations are acceptable; and then
/// the states, sequences and groups are those accumulated before followed by
/// the declared ones, and the roles are those accumulated before together
/// with the declared ones.
pub proof fn law_ingest_succeeds_iff_acceptable(m: Merged, declarations: Seq<DeclarationView>)
    requires
        merged_wf(m),
    ensures
        ingest(m, declarations).error is None <==> acceptable(m, declarations),
        ingest(m, declarations).error is None ==> {
            let merged = ingest(m, declarations).merged;
            &&& merged.states == m.states + declared_states(declarations)
            &&& merged.sequences == m.sequences + declared_sequences(declarations)
            &&& merged.groups == m.groups + declared_groups(declarations)
            &&& merged.roles.to_set() == m.roles.to_set().union(
                declared_roles(declarations).to_set(),
            )
        },
    decreases declarations.len(),
{
    if declarations.len() == 0 {
        assert(m.states + declared_states(declarations) =~= m.states);
        assert(m.sequences + declared_sequences(declarations) =~= m.sequences);
        assert(m.groups + declared_groups(declarations) =~= m.groups);
        assert(declared_roles(declarations).to_set() =~= Set::<Seq<char>>::empty());
        assert(m.roles.to_set().union(declared_roles(declarations).to_set())
            =~= m.roles.to_set());
        assert(state_names(m.states) + state_names(declared_states(declarations))
            =~= state_names(m.states));
        assert(sequence_names(m.sequences) + sequence_names(declared_sequences(declarations))
            =~= sequence_names(m.sequences));
        assert(group_names(m.groups) + group_names(declared_groups(declarations)) =~= group_names(
            m.groups,
        ));
    } else {
        let front = declarations.drop_last();
        let last = declarations.last();
        law_ingest_succeeds_iff_acceptable(m, front);
        let before = ingest(m, front);
        let states = declared_states(front);
        let sequences = declared_sequences(front);
        let groups = declared_groups(front);
        let roles = declared_roles(front);
        assert(state_names(m.states + states) =~= state_names(m.states) + state_names(states));
        assert(sequence_names(m.sequences + sequences) =~= sequence_names(m.sequences)
            + sequence_names(sequences));
        assert(group_names(m.groups + groups) =~= group_names(m.groups) + group_names(groups));
        match last {
            DeclarationView::Roles(d) => {
                lemma_all_named_concat(roles, d.roles);
                if before.error is None {
                    law_roles_accepted_iff_named(before.merged, d.roles);
                    lemma_roles_keep_names(before.merged, d.roles, Seq::empty());
                    if all_named(d.roles) {
                        law_roles_accumulate(before.merged, d.roles);
                        vstd::seq_lib::seq_to_set_distributes_over_add(roles, d.roles);
                        assert(m.roles.to_set().union(roles.to_set()).union(d.roles.to_set())
                            =~= m.roles.to_set().union((roles + d.roles).to_set()));
                    }
                }
            },
            DeclarationView::State(d) => {
                lemma_fresh_push(state_names(m.states), state_names(states), d.name);
                assert(state_names(states.push(d)) =~= state_names(states).push(d.name));
                if before.error is None {
                    assert((m.states + states).push(d) =~= m.states + states.push(d));
                }
            },
            DeclarationView::Sequence(d) => {
                lemma_fresh_push(sequence_names(m.sequences), sequence_names(sequences), d.name);
                assert(sequence_names(sequences.push(d)) =~= sequence_names(sequences).push(
                    d.name,
                ));
                if before.error is None {
                    assert((m.sequences + sequences).push(d) =~= m.sequences + sequences.push(d));
                }
            },
            DeclarationView::Group(d) => {
                lemma_fresh_push(group_names(m.groups), group_names(groups), d.name);
                assert(group_names(groups.push(d)) =~= group_names(groups).push(d.name));
                if before.error is None {
                    assert((m.groups + groups).push(d) =~= m.groups + groups.push(d));
                }
            },
        }
    }
}

/// What two lists of declarations declare together is what the first
/// declares followed by what the second declares.
pub proof fn lemma_declared_concat(a: Seq<DeclarationView>, b: Seq<DeclarationView>)
    ensures
        declared_roles(a + b) == declared_roles(a) + declared_roles(b),
        declared_states(a + b) == declared_states(a) + declared_states(b),
        declared_sequences(a + b) == declared_sequences(a) + declared_sequences(b),
        declared_groups(a + b) == declared_groups(a) + declared_groups(b),
    decreases b.len(),
{
    if b.len() == 0 {
        assert(a + b =~= a);
        assert(declared_roles(a) + declared_roles(b) =~= declared_roles(a));
        assert(declared_states(a) + declared_states(b) =~= declared_states(a));
        assert(declared_sequences(a) + declared_sequences(b) =~= declared_sequences(a));
        assert(declared_groups(a) + declared_groups(b) =~= declared_groups(a));
    } else {
        lemma_declared_concat(a, b.drop_last());
        assert((a + b).drop_last() =~= a + b.drop_last());
        assert((a + b).last() == b.last());
        let front = b.drop_last();
        match b.last() {
            DeclarationView::Roles(d) => {
                assert(declared_roles(a) + declared_roles(front) + d.roles =~= declared_roles(a)
                    + (declared_roles(front) + d.roles));
            },
            DeclarationView::State(d) => {
                assert((declared_states(a) + declared_states(front)).push(d) =~= declared_states(
                    a,
                ) + declared_states(front).push(d));
            },
            DeclarationView::Sequence(d) => {
                assert((declared_sequences(a) + declared_sequences(front)).push(d)
                    =~= declared_sequences(a) + declared_sequences(front).push(d));
            },
            DeclarationView::Group(d) => {
                assert((declared_groups(a) + declared_groups(front)).push(d) =~= declared_groups(
                    a,
                ) + declared_groups(front).push(d));
            },
        }
    }
}

/// Whether names are fresh does not depend on the order of two parts of
/// them.
pub proof fn lemma_fresh_swap(old_names: Seq<Seq<char>>, a: Seq<Seq<char>>, b: Seq<Seq<char>>)
    requires
        fresh(old_names, a + b),
    ensures
        fresh(old_names, b + a),
{
    lemma_all_named_concat(a, b);
    lemma_all_named_concat(b, a);
    let one = old_names + (a + b);
    let other = old_names + (b + a);
    let n = old_names.len() as int;
    assert forall|i: int, j: int| 0 <= i < other.len() && 0 <= j < other.len() && i
        != j implies other[i] != other[j] by {
        let to_one = |k: int|
            if k < n {
                k
            } else if k < n + b.len() {
                k + a.len()
            } else {
                k - b.len()
            };
        assert(other[i] == one[to_one(i)]);
        assert(other[j] == one[to_one(j)]);
        assert(to_one(i) != to_one(j));
    }
}

/// The order in which two units are ingested changes neither whether they
/// are accepted nor, if they are, which roles, states, sequences and groups
/// have been accumulated.
pub proof fn law_unit_order_is_irrelevant(
    m: Merged,
    a: Seq<DeclarationView>,
    b: Seq<DeclarationView>,
)
    requires
        merged_wf(m),
    ensures
        ingest(m, a + b).error is None <==> ingest(m, b + a).error is None,
        ingest(m, a + b).error is None ==> {
            let one = ingest(m, a + b).merged;
            let other = ingest(m, b + a).merged;
            &&& one.roles.to_set() == other.roles.to_set()
            &&& one.states.to_set() == other.states.to_set()
            &&& one.sequences.to_set() == other.sequences.to_set()
            &&& one.groups.to_set() == other.groups.to_set()
        },
{
    law_ingest_succeeds_iff_acceptable(m, a + b);
    law_ingest_succeeds_iff_acceptable(m, b + a);
    lemma_declared_concat(a, b);
    lemma_declared_concat(b, a);
    lemma_all_named_concat(declared_roles(a), declared_roles(b));
    lemma_all_named_concat(declared_roles(b), declared_roles(a));
    let sa = state_names(declared_states(a));
    let sb = state_names(declared_states(b));
    let qa = sequence_names(declared_sequences(a));
    let qb = sequence_names(declared_sequences(b));
    let ga = group_names(declared_groups(a));
    let gb = group_names(declared_groups(b));
    assert(state_names(declared_states(a) + declared_states(b)) =~= sa + sb);
    assert(state_names(declared_states(b) + declared_states(a)) =~= sb + sa);
    assert(sequence_names(declared_sequences(a) + declared_sequences(b)) =~= qa + qb);
    assert(sequence_names(declared_sequences(b) + declared_sequences(a)) =~= qb + qa);
    assert(group_names(declared_groups(a) + declared_groups(b)) =~= ga + gb);
    assert(group_names(declared_groups(b) + declared_groups(a)) =~= gb + ga);
    if acceptable(m, a + b) {
        lemma_fresh_swap(state_names(m.states), sa, sb);
        lemma_fresh_swap(sequence_names(m.sequences), qa, qb);
        lemma_fresh_swap(group_names(m.groups), ga, gb);
    }
    if acceptable(m, b + a) {
        lemma_fresh_swap(state_names(m.states), sb, sa);
        lemma_fresh_swap(sequence_names(m.sequences), qb, qa);
        lemma_fresh_swap(group_names(m.groups), gb, ga);
    }
    if ingest(m, a + b).error is None {
        vstd::seq_lib::seq_to_set_distributes_over_add(declared_roles(a), declared_roles(b));
        vstd::seq_lib::seq_to_set_distributes_over_add(declared_roles(b), declared_roles(a));
        assert(declared_roles(a).to_set().union(declared_roles(b).to_set()) =~= declared_roles(
            b,
        ).to_set().union(declared_roles(a).to_set()));
        lemma_to_set_swap(m.states, declared_states(a), declared_states(b));
        lemma_to_set_swap(m.sequences, declared_sequences(a), declared_sequences(b));
        lemma_to_set_swap(m.groups, declared_groups(a), declared_groups(b));
    }
}

/// The set of the items of a list does not depend on the order of two parts
/// of it.
pub proof fn lemma_to_set_swap<A>(head: Seq<A>, a: Seq<A>, b: Seq<A>)
    ensures
        (head + (a + b)).to_set() == (head + (b + a)).to_set(),
{
    vstd::seq_lib::seq_to_set_distributes_over_add(head, a + b);
    vstd::seq_lib::seq_to_set_distributes_over_add(head, b + a);
    vstd::seq_lib::seq_to_set_distributes_over_add(a, b);
    vstd::seq_lib::seq_to_set_distributes_over_add(b, a);
    assert(a.to_set().union(b.to_set()) =~= b.to_set().union(a.to_set()));
}

} // verus!
