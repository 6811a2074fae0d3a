//! Semantic validation: merging the declarations of any number of units and
//! checking the merged system as a whole.
//!
//! The validator is an accumulator. Its model, [`Merged`], holds the declared
//! roles, states, sequences and groups in the order in which they were
//! accepted. Ingesting a unit is the pure function [`ingest`] on that model;
//! the checks of the whole system are the pure function [`first_violation`].
//! Both go through the declarations in order and stop at the first defect, so
//! which error is reported is determined by the input alone.

use vstd::prelude::*;
use crate::ast::{
    views, Declaration, DeclarationView, GroupDecl, GroupDeclView, MartialFile, RolesDecl,
    Sequence, SequenceView, State, StateRef, StateRefView, StateView,
};
use crate::text::{
    clone_texts, contains_text, decimal_text, join, joined, push_decimal, same_text, texts,
};

verus! {

/// A semantic error: what is wrong, and in which declaration (or, for a
/// system without roles, in which system).
#[derive(Debug, PartialEq)]
pub struct SemanticError {
    pub message: String,
    pub context: String,
}

/// Model of a [`SemanticError`].
pub struct SemanticErrorView {
    pub message: Seq<char>,
    pub context: Seq<char>,
}

impl View for SemanticError {
    type V = SemanticErrorView;

    open spec fn view(&self) -> SemanticErrorView {
        SemanticErrorView { message: self.message@, context: self.context@ }
    }
}

impl Clone for SemanticError {
    fn clone(&self) -> (r: Self)
        ensures
            r@ == self@,
    {
        SemanticError { message: self.message.clone(), context: self.context.clone() }
    }
}

impl SemanticError {
    /// The error as it is shown to the user.
    pub fn to_string(&self) -> (r: String)
        ensures
            r@ == "Semantic error in "@ + self.context@ + ": "@ + self.message@,
    {
        let mut out = String::from_str("Semantic error in ");
        out.append(self.context.as_str());
        out.append(": ");
        out.append(self.message.as_str());
        out
    }
}

/// What the validator has accumulated: the declarations accepted so far, by
/// kind, each kind in order of acceptance.
pub struct Merged {
    pub roles: Seq<Seq<char>>,
    pub states: Seq<StateView>,
    pub sequences: Seq<SequenceView>,
    pub groups: Seq<GroupDeclView>,
}

/// The names of a list of states, in order.
pub open spec fn state_names(states: Seq<StateView>) -> Seq<Seq<char>> {
    states.map_values(|s: StateView| s.name)
}

/// The names of a list of sequences, in order.
pub open spec fn sequence_names(sequences: Seq<SequenceView>) -> Seq<Seq<char>> {
    sequences.map_values(|s: SequenceView| s.name)
}

/// The names of a list of groups, in order.
pub open spec fn group_names(groups: Seq<GroupDeclView>) -> Seq<Seq<char>> {
    groups.map_values(|g: GroupDeclView| g.name)
}

/// No name is empty.
pub open spec fn all_named(names: Seq<Seq<char>>) -> bool {
    forall|i: int| 0 <= i < names.len() ==> (#[trigger] names[i]).len() > 0
}

/// The invariant of the accumulator: within each kind, names are not empty
/// and no name is used twice.
pub open spec fn merged_wf(m: Merged) -> bool {
    &&& m.roles.no_duplicates()
    &&& all_named(m.roles)
    &&& state_names(m.states).no_duplicates()
    &&& all_named(state_names(m.states))
    &&& sequence_names(m.sequences).no_duplicates()
    &&& all_named(sequence_names(m.sequences))
    &&& group_names(m.groups).no_duplicates()
    &&& all_named(group_names(m.groups))
}

/// The accumulator in which nothing has been declared.
pub open spec fn nothing_merged() -> Merged {
    Merged {
        roles: Seq::empty(),
        states: Seq::empty(),
        sequences: Seq::empty(),
        groups: Seq::empty(),
    }
}

/// The outcome of ingesting declarations: what has been accumulated, and the
/// error that stopped the ingestion, if one did.
pub struct Ingest {
    pub merged: Merged,
    pub error: Option<SemanticErrorView>,
}

/// The error for a declaration of kind `kind` (capitalised in `title`) whose
/// name is empty.
pub open spec fn empty_name_error(title: Seq<char>, kind: Seq<char>) -> SemanticErrorView {
    SemanticErrorView {
        message: title + " name cannot be empty"@,
        context: kind + " declaration"@,
    }
}

/// The error for a second declaration of kind `kind` (capitalised in `title`)
/// under the name `name`.
pub open spec fn duplicate_error(
    title: Seq<char>,
    kind: Seq<char>,
    name: Seq<char>,
) -> SemanticErrorView {
    SemanticErrorView {
        message: title + " '"@ + name + "' is already defined"@,
        context: kind + " "@ + name,
    }
}

/// Accepting one role: an empty name is an error; a name that is already
/// there changes nothing; a new name is added at the end.
pub open spec fn add_role(m: Merged, role: Seq<char>) -> Ingest {
    if role.len() == 0 {
        Ingest {
            merged: m,
            error: Some(
                SemanticErrorView {
                    message: "Role name cannot be empty"@,
                    context: "roles declaration"@,
                },
            ),
        }
    } else if m.roles.contains(role) {
        Ingest { merged: m, error: None }
    } else {
        Ingest { merged: Merged { roles: m.roles.push(role), ..m }, error: None }
    }
}

/// Accepting the roles of one declaration, in order, up to the first error.
pub open spec fn add_roles(m: Merged, roles: Seq<Seq<char>>) -> Ingest
    decreases roles.len(),
{
    if roles.len() == 0 {
        Ingest { merged: m, error: None }
    } else {
        let before = add_roles(m, roles.drop_last());
        if before.error is Some {
            before
        } else {
            add_role(before.merged, roles.last())
        }
    }
}

/// Accepting one state: its name must not be empty, nor be the name of a
/// state accepted earlier.
pub open spec fn add_state(m: Merged, state: StateView) -> Ingest {
    if state.name.len() == 0 {
        Ingest { merged: m, error: Some(empty_name_error("State"@, "state"@)) }
    } else if state_names(m.states).contains(state.name) {
        Ingest { merged: m, error: Some(duplicate_error("State"@, "state"@, state.name)) }
    } else {
        Ingest { merged: Merged { states: m.states.push(state), ..m }, error: None }
    }
}

/// Accepting one sequence: its name must not be empty, nor be the name of a
/// sequence accepted earlier.
pub open spec fn add_sequence(m: Merged, sequence: SequenceView) -> Ingest {
    if sequence.name.len() == 0 {
        Ingest { merged: m, error: Some(empty_name_error("Sequence"@, "sequence"@)) }
    } else if sequence_names(m.sequences).contains(sequence.name) {
        Ingest {
            merged: m,
            error: Some(duplicate_error("Sequence"@, "sequence"@, sequence.name)),
        }
    } else {
        Ingest { merged: Merged { sequences: m.sequences.push(sequence), ..m }, error: None }
    }
}

/// Accepting one group: its name must not be empty, nor be the name of a
/// group accepted earlier.
pub open spec fn add_group(m: Merged, group: GroupDeclView) -> Ingest {
    if group.name.len() == 0 {
        Ingest { merged: m, error: Some(empty_name_error("Group"@, "group"@)) }
    } else if group_names(m.groups).contains(group.name) {
        Ingest { merged: m, error: Some(duplicate_error("Group"@, "group"@, group.name)) }
    } else {
        Ingest { merged: Merged { groups: m.groups.push(group), ..m }, error: None }
    }
}

/// Accepting one declaration, whatever its kind.
pub open spec fn add_declaration(m: Merged, declaration: DeclarationView) -> Ingest {
    match declaration {
        DeclarationView::Roles(d) => add_roles(m, d.roles),
        DeclarationView::State(d) => add_state(m, d),
        DeclarationView::Sequence(d) => add_sequence(m, d),
        DeclarationView::Group(d) => add_group(m, d),
    }
}

/// Accepting the declarations of one unit, in order, up to the first error.
/// What was accepted before the error stays accepted.
pub open spec fn ingest(m: Merged, declarations: Seq<DeclarationView>) -> Ingest
    decreases declarations.len(),
{
    if declarations.len() == 0 {
        Ingest { merged: m, error: None }
    } else {
        let before = ingest(m, declarations.drop_last());
        if before.error is Some {
            before
        } else {
            add_declaration(before.merged, declarations.last())
        }
    }
}

/// Once a prefix of the roles has run into an error, the rest is not looked
/// at.
pub proof fn lemma_add_roles_stops(m: Merged, roles: Seq<Seq<char>>, k: int)
    requires
        0 <= k <= roles.len(),
        add_roles(m, roles.take(k)).error is Some,
    ensures
        add_roles(m, roles) == add_roles(m, roles.take(k)),
    decreases roles.len(),
{
    if k == roles.len() {
        assert(roles.take(k) =~= roles);
    } else {
        assert(roles.drop_last().take(k) =~= roles.take(k));
        lemma_add_roles_stops(m, roles.drop_last(), k);
    }
}

/// Once a prefix of the declarations has run into an error, the rest is not
/// looked at.
pub proof fn lemma_ingest_stops(m: Merged, declarations: Seq<DeclarationView>, k: int)
    requires
        0 <= k <= declarations.len(),
        ingest(m, declarations.take(k)).error is Some,
    ensures
        ingest(m, declarations) == ingest(m, declarations.take(k)),
    decreases declarations.len(),
{
    if k == declarations.len() {
        assert(declarations.take(k) =~= declarations);
    } else {
        assert(declarations.drop_last().take(k) =~= declarations.take(k));
        lemma_ingest_stops(m, declarations.drop_last(), k);
    }
}

/// Accepting one role keeps the invariant.
pub proof fn lemma_add_role_wf(m: Merged, role: Seq<char>)
    requires
        merged_wf(m),
    ensures
        merged_wf(add_role(m, role).merged),
{
}

/// Accepting roles keeps the invariant.
pub proof fn lemma_add_roles_wf(m: Merged, roles: Seq<Seq<char>>)
    requires
        merged_wf(m),
    ensures
        merged_wf(add_roles(m, roles).merged),
    decreases roles.len(),
{
    if roles.len() > 0 {
        lemma_add_roles_wf(m, roles.drop_last());
        lemma_add_role_wf(add_roles(m, roles.drop_last()).merged, roles.last());
    }
}

/// Accepting one declaration keeps the invariant.
pub proof fn lemma_add_declaration_wf(m: Merged, declaration: DeclarationView)
    requires
        merged_wf(m),
    ensures
        merged_wf(add_declaration(m, declaration).merged),
{
    match declaration {
        DeclarationView::Roles(d) => {
            lemma_add_roles_wf(m, d.roles);
        },
        DeclarationView::State(d) => {
            let after = add_state(m, d).merged;
            if after != m {
                assert(state_names(after.states) =~= state_names(m.states).push(d.name));
            }
        },
        DeclarationView::Sequence(d) => {
            let after = add_sequence(m, d).merged;
            if after != m {
                assert(sequence_names(after.sequences) =~= sequence_names(m.sequences).push(
                    d.name,
                ));
            }
        },
        DeclarationView::Group(d) => {
            let after = add_group(m, d).merged;
            if after != m {
                assert(group_names(after.groups) =~= group_names(m.groups).push(d.name));
            }
        },
    }
}

/// Ingesting a unit keeps the invariant, whether or not it ends in an error.
pub proof fn lemma_ingest_wf(m: Merged, declarations: Seq<DeclarationView>)
    requires
        merged_wf(m),
    ensures
        merged_wf(ingest(m, declarations).merged),
    decreases declarations.len(),
{
    if declarations.len() > 0 {
        lemma_ingest_wf(m, declarations.drop_last());
        lemma_add_declaration_wf(ingest(m, declarations.drop_last()).merged, declarations.last());
    }
}

fn empty_name(title: &str, kind: &str) -> (r: SemanticError)
    ensures
        r@ == empty_name_error(title@, kind@),
{
    let mut message = String::from_str(title);
    message.append(" name cannot be empty");
    let mut context = String::from_str(kind);
    context.append(" declaration");
    SemanticError { message, context }
}

fn duplicate(title: &str, kind: &str, name: &str) -> (r: SemanticError)
    ensures
        r@ == duplicate_error(title@, kind@, name@),
{
    let mut message = String::from_str(title);
    message.append(" '");
    message.append(name);
    message.append("' is already defined");
    let mut context = String::from_str(kind);
    context.append(" ");
    context.append(name);
    SemanticError { message, context }
}

/// The index of the first state of `states` that is called `name`.
pub fn find_state(states: &Vec<State>, name: &str) -> (r: Option<usize>)
    ensures
        match r {
            Some(i) => state_names(views(states@)).index_of_first(name@) == Some(i as int),
            None => state_names(views(states@)).index_of_first(name@) is None,
        },
{
    let ghost names = state_names(views(states@));
    let mut i: usize = 0;
    while i < states.len()
        invariant
            i <= states.len(),
            names == state_names(views(states@)),
            forall|j: int| 0 <= j < i ==> names[j] != name@,
        decreases states.len() - i,
    {
        assert(names[i as int] == states@[i as int]@.name);
        if same_text(states[i].name.as_str(), name) {
            proof {
                names.index_of_first_ensures(name@);
            }
            return Some(i);
        }
        i += 1;
    }
    proof {
        names.index_of_first_ensures(name@);
    }
    None
}

/// The index of the first sequence of `sequences` that is called `name`.
pub fn find_sequence(sequences: &Vec<Sequence>, name: &str) -> (r: Option<usize>)
    ensures
        match r {
            Some(i) => sequence_names(views(sequences@)).index_of_first(name@) == Some(i as int),
            None => sequence_names(views(sequences@)).index_of_first(name@) is None,
        },
{
    let ghost names = sequence_names(views(sequences@));
    let mut i: usize = 0;
    while i < sequences.len()
        invariant
            i <= sequences.len(),
            names == sequence_names(views(sequences@)),
            forall|j: int| 0 <= j < i ==> names[j] != name@,
        decreases sequences.len() - i,
    {
        assert(names[i as int] == sequences@[i as int]@.name);
        if same_text(sequences[i].name.as_str(), name) {
            proof {
                names.index_of_first_ensures(name@);
            }
            return Some(i);
        }
        i += 1;
    }
    proof {
        names.index_of_first_ensures(name@);
    }
    None
}

/// The index of the first group of `groups` that is called `name`.
pub fn find_group(groups: &Vec<GroupDecl>, name: &str) -> (r: Option<usize>)
    ensures
        match r {
            Some(i) => group_names(views(groups@)).index_of_first(name@) == Some(i as int),
            None => group_names(views(groups@)).index_of_first(name@) is None,
        },
{
    let ghost names = group_names(views(groups@));
    let mut i: usize = 0;
    while i < groups.len()
        invariant
            i <= groups.len(),
            names == group_names(views(groups@)),
            forall|j: int| 0 <= j < i ==> names[j] != name@,
        decreases groups.len() - i,
    {
        assert(names[i as int] == groups@[i as int]@.name);
        if same_text(groups[i].name.as_str(), name) {
            proof {
                names.index_of_first_ensures(name@);
            }
            return Some(i);
        }
        i += 1;
    }
    proof {
        names.index_of_first_ensures(name@);
    }
    None
}

/// The validator: what has been declared so far, over all units ingested.
pub struct SemanticValidator {
    roles: Vec<String>,
    states: Vec<State>,
    sequences: Vec<Sequence>,
    groups: Vec<GroupDecl>,
}

impl View for SemanticValidator {
    type V = Merged;

    closed spec fn view(&self) -> Merged {
        Merged {
            roles: texts(self.roles@),
            states: views(self.states@),
            sequences: views(self.sequences@),
            groups: views(self.groups@),
        }
    }
}

impl SemanticValidator {
    /// The invariant of the accumulator holds.
    pub open spec fn wf(&self) -> bool {
        merged_wf(self@)
    }

    /// A validator in which nothing has been declared.
    pub fn new() -> (r: Self)
        ensures
            r@ == nothing_merged(),
            r.wf(),
    {
        let r = SemanticValidator {
            roles: Vec::new(),
            states: Vec::new(),
            sequences: Vec::new(),
            groups: Vec::new(),
        };
        assert(r@.roles =~= Seq::empty());
        assert(r@.states =~= Seq::empty());
        assert(r@.sequences =~= Seq::empty());
        assert(r@.groups =~= Seq::empty());
        assert(state_names(r@.states) =~= Seq::empty());
        assert(sequence_names(r@.sequences) =~= Seq::empty());
        assert(group_names(r@.groups) =~= Seq::empty());
        r
    }

    /// The roles declared so far, in order of declaration.
    pub fn roles(&self) -> (r: &Vec<String>)
        ensures
            texts(r@) == self@.roles,
    {
        &self.roles
    }

    /// The states declared so far, in order of declaration.
    pub fn states(&self) -> (r: &Vec<State>)
        ensures
            views(r@) == self@.states,
    {
        &self.states
    }

    /// The sequences declared so far, in order of declaration.
    pub fn sequences(&self) -> (r: &Vec<Sequence>)
        ensures
            views(r@) == self@.sequences,
    {
        &self.sequences
    }

    /// The groups declared so far, in order of declaration.
    pub fn groups(&self) -> (r: &Vec<GroupDecl>)
        ensures
            views(r@) == self@.groups,
    {
        &self.groups
    }

    /// Ingests the declarations of one unit, in order. The first defect stops
    /// the ingestion and is returned; what was accepted before it stays.
    pub fn add_file(&mut self, file: MartialFile) -> (r: Result<(), SemanticError>)
        requires
            old(self).wf(),
        ensures
            final(self).wf(),
            final(self)@ == ingest(old(self)@, file@.declarations).merged,
            match r {
                Ok(_) => ingest(old(self)@, file@.declarations).error is None,
                Err(e) => ingest(old(self)@, file@.declarations).error == Some(e@),
            },
    {
        let ghost start = self@;
        let ghost all = file@.declarations;
        for declaration in it: file.declarations
            invariant
                start == old(self)@,
                all == views(it.seq()),
                merged_wf(start),
                ingest(start, all.take(it.index() as int)) == (Ingest { merged: self@, error: None }),
        {
            let ghost i = it.index() as int;
            proof {
                assert(all.take(i + 1).drop_last() =~= all.take(i));
                assert(all.take(i + 1).last() == declaration@);
                lemma_ingest_wf(start, all.take(i));
            }
            let outcome = match declaration {
                Declaration::Roles(roles_decl) => self.add_roles(roles_decl),
                Declaration::State(state) => self.add_state(state),
                Declaration::Sequence(sequence) => self.add_sequence(sequence),
                Declaration::Group(group) => self.add_group(group),
            };
            match outcome {
                Ok(_) => {},
                Err(e) => {
                    proof {
                        lemma_ingest_stops(start, all, i + 1);
                        lemma_ingest_wf(start, all);
                    }
                    return Err(e);
                },
            }
        }
        proof {
            assert(all.take(all.len() as int) =~= all);
            lemma_ingest_wf(start, all);
        }
        Ok(())
    }

    /// Accepts the roles of one declaration, in order; a role that is there
    /// already is passed over. An empty name stops the ingestion.
    pub fn add_roles(&mut self, roles_decl: RolesDecl) -> (r: Result<(), SemanticError>)
        requires
            old(self).wf(),
        ensures
            final(self).wf(),
            final(self)@ == add_roles(old(self)@, roles_decl@.roles).merged,
            match r {
                Ok(_) => add_roles(old(self)@, roles_decl@.roles).error is None,
                Err(e) => add_roles(old(self)@, roles_decl@.roles).error == Some(e@),
            },
    {
        let ghost start = self@;
        let ghost all = roles_decl@.roles;
        for role in it: roles_decl.roles
            invariant
                start == old(self)@,
                all == texts(it.seq()),
                merged_wf(start),
                add_roles(start, all.take(it.index() as int)) == (Ingest {
                    merged: self@,
                    error: None,
                }),
        {
            let ghost i = it.index() as int;
            let ghost before = self@;
            proof {
                assert(all.take(i + 1).drop_last() =~= all.take(i));
                assert(all.take(i + 1).last() == role@);
            }
            if role.as_str().is_empty() {
                proof {
                    lemma_add_roles_stops(start, all, i + 1);
                    lemma_add_roles_wf(start, all);
                }
                return Err(
                    SemanticError {
                        message: String::from_str("Role name cannot be empty"),
                        context: String::from_str("roles declaration"),
                    },
                );
            }
            if !contains_text(&self.roles, role.as_str()) {
                self.roles.push(role);
                assert(self@.roles =~= before.roles.push(role@));
            }
        }
        proof {
            assert(all.take(all.len() as int) =~= all);
            lemma_add_roles_wf(start, all);
        }
        Ok(())
    }

    /// Accepts one state, unless its name is empty or taken.
    pub fn add_state(&mut self, state: State) -> (r: Result<(), SemanticError>)
        requires
            old(self).wf(),
        ensures
            final(self).wf(),
            final(self)@ == add_state(old(self)@, state@).merged,
            match r {
                Ok(_) => add_state(old(self)@, state@).error is None,
                Err(e) => add_state(old(self)@, state@).error == Some(e@),
            },
    {
        proof {
            lemma_add_declaration_wf(self@, DeclarationView::State(state@));
            state_names(self@.states).index_of_first_ensures(state@.name);
        }
        if state.name.as_str().is_empty() {
            return Err(empty_name("State", "state"));
        }
        if find_state(&self.states, state.name.as_str()).is_some() {
            return Err(duplicate("State", "state", state.name.as_str()));
        }
        let ghost before = self@;
        self.states.push(state);
        assert(self@.states =~= before.states.push(state@));
        Ok(())
    }

    /// Accepts one sequence, unless its name is empty or taken.
    pub fn add_sequence(&mut self, sequence: Sequence) -> (r: Result<(), SemanticError>)
        requires
            old(self).wf(),
        ensures
            final(self).wf(),
            final(self)@ == add_sequence(old(self)@, sequence@).merged,
            match r {
                Ok(_) => add_sequence(old(self)@, sequence@).error is None,
                Err(e) => add_sequence(old(self)@, sequence@).error == Some(e@),
            },
    {
        proof {
            lemma_add_declaration_wf(self@, DeclarationView::Sequence(sequence@));
            sequence_names(self@.sequences).index_of_first_ensures(sequence@.name);
        }
        if sequence.name.as_str().is_empty() {
            return Err(empty_name("Sequence", "sequence"));
        }
        if find_sequence(&self.sequences, sequence.name.as_str()).is_some() {
            return Err(duplicate("Sequence", "sequence", sequence.name.as_str()));
        }
        let ghost before = self@;
        self.sequences.push(sequence);
        assert(self@.sequences =~= before.sequences.push(sequence@));
        Ok(())
    }

    /// Accepts one group, unless its name is empty or taken.
    pub fn add_group(&mut self, group: GroupDecl) -> (r: Result<(), SemanticError>)
        requires
            old(self).wf(),
        ensures
            final(self).wf(),
            final(self)@ == add_group(old(self)@, group@).merged,
            match r {
                Ok(_) => add_group(old(self)@, group@).error is None,
                Err(e) => add_group(old(self)@, group@).error == Some(e@),
            },
    {
        proof {
            lemma_add_declaration_wf(self@, DeclarationView::Group(group@));
            group_names(self@.groups).index_of_first_ensures(group@.name);
        }
        if group.name.as_str().is_empty() {
            return Err(empty_name("Group", "group"));
        }
        if find_group(&self.groups, group.name.as_str()).is_some() {
            return Err(duplicate("Group", "group", group.name.as_str()));
        }
        let ghost before = self@;
        self.groups.push(group);
        assert(self@.groups =~= before.groups.push(group@));
        Ok(())
    }
}

/// The first outcome that is an error, if any is.
pub open spec fn first_some<E>(outcomes: Seq<Option<E>>) -> Option<E>
    decreases outcomes.len(),
{
    if outcomes.len() == 0 {
        None
    } else {
        match first_some(outcomes.drop_last()) {
            Some(e) => Some(e),
            None => outcomes.last(),
        }
    }
}

/// If the outcome at `i` is an error and none before it is, it is the first.
pub proof fn lemma_first_some_found<E>(outcomes: Seq<Option<E>>, i: int)
    requires
        0 <= i < outcomes.len(),
        forall|j: int| 0 <= j < i ==> outcomes[j] is None,
        outcomes[i] is Some,
    ensures
        first_some(outcomes) == outcomes[i],
    decreases outcomes.len(),
{
    if i == outcomes.len() - 1 {
        lemma_first_some_none(outcomes.drop_last());
    } else {
        lemma_first_some_found(outcomes.drop_last(), i);
    }
}

/// If no outcome is an error, there is no first.
pub proof fn lemma_first_some_none<E>(outcomes: Seq<Option<E>>)
    requires
        forall|j: int| 0 <= j < outcomes.len() ==> outcomes[j] is None,
    ensures
        first_some(outcomes) is None,
    decreases outcomes.len(),
{
    if outcomes.len() > 0 {
        lemma_first_some_none(outcomes.drop_last());
    }
}

/// If there is no first error, no outcome is an error.
pub proof fn lemma_first_some_absent<E>(outcomes: Seq<Option<E>>)
    requires
        first_some(outcomes) is None,
    ensures
        forall|j: int| 0 <= j < outcomes.len() ==> outcomes[j] is None,
    decreases outcomes.len(),
{
    if outcomes.len() > 0 {
        lemma_first_some_absent(outcomes.drop_last());
        assert forall|j: int| 0 <= j < outcomes.len() implies outcomes[j] is None by {
            if j < outcomes.len() - 1 {
                assert(outcomes.drop_last()[j] == outcomes[j]);
            }
        }
    }
}

/// The context of a check on the state `name`.
pub open spec fn state_context(name: Seq<char>) -> Seq<char> {
    "state "@ + name
}

/// The context of a check on the sequence `name`.
pub open spec fn sequence_context(name: Seq<char>) -> Seq<char> {
    "sequence "@ + name
}

/// The context of a check on the step at index `index` (shown counted from
/// one) of the sequence `name`.
pub open spec fn step_context(name: Seq<char>, index: int, action: Seq<char>) -> Seq<char> {
    "sequence "@ + name + " step "@ + decimal_text((index + 1) as nat) + " ("@ + action + ")"@
}

/// The context of a check on the group `name`.
pub open spec fn group_context(name: Seq<char>) -> Seq<char> {
    "group "@ + name
}

/// The error of a system in which no role is declared.
pub open spec fn no_roles_error(system_name: Seq<char>) -> SemanticErrorView {
    SemanticErrorView {
        message: "No roles defined. At least one role declaration is required."@,
        context: system_name,
    }
}

/// The error for a role that is used and not declared.
pub open spec fn undefined_role_error(
    role: Seq<char>,
    roles: Seq<Seq<char>>,
    context: Seq<char>,
) -> SemanticErrorView {
    SemanticErrorView {
        message: "Role '"@ + role + "' is not defined. Available roles: "@ + joined(roles, ", "@),
        context,
    }
}

/// The error for a role that a state lists twice.
pub open spec fn repeated_role_error(role: Seq<char>, context: Seq<char>) -> SemanticErrorView {
    SemanticErrorView { message: "Role '"@ + role + "' appears multiple times"@, context }
}

/// The error for a state that is used and not declared.
pub open spec fn undefined_state_error(
    state: Seq<char>,
    states: Seq<Seq<char>>,
    context: Seq<char>,
) -> SemanticErrorView {
    SemanticErrorView {
        message: "State '"@ + state + "' is not defined. Available states: "@ + joined(
            states,
            ", "@,
        ),
        context,
    }
}

/// The error for a role that is declared, used with a state that restricts
/// its roles, and not among them.
pub open spec fn role_not_allowed_error(
    role: Seq<char>,
    state: Seq<char>,
    allowed: Seq<Seq<char>>,
    context: Seq<char>,
) -> SemanticErrorView {
    SemanticErrorView {
        message: "Role '"@ + role + "' is not allowed for state '"@ + state
            + "'. Allowed roles: "@ + joined(allowed, ", "@),
        context,
    }
}

/// An endpoint as it is written in the source, as in `Mount[Top]`.
pub open spec fn state_ref_text(r: StateRefView) -> Seq<char> {
    r.state + "["@ + r.role + "]"@
}

/// The error for a step that does not start where the step before it ends.
pub open spec fn broken_chain_error(
    previous_to: StateRefView,
    from: StateRefView,
    context: Seq<char>,
) -> SemanticErrorView {
    SemanticErrorView {
        message: "Step chain is broken: previous step ends at "@ + state_ref_text(previous_to)
            + ", but this step starts at "@ + state_ref_text(from),
        context,
    }
}

/// The error for a sequence without steps.
pub open spec fn empty_sequence_error(context: Seq<char>) -> SemanticErrorView {
    SemanticErrorView { message: "Sequence must have at least one step"@, context }
}

/// The error for a group without states.
pub open spec fn empty_group_error(context: Seq<char>) -> SemanticErrorView {
    SemanticErrorView { message: "Group must contain at least one state"@, context }
}

/// The first state of `states` that is called `name`.
pub open spec fn lookup_state(states: Seq<StateView>, name: Seq<char>) -> Option<StateView> {
    match state_names(states).index_of_first(name) {
        Some(i) => Some(states[i]),
        None => None,
    }
}

/// What is wrong with the `k`-th role of a restriction list when it is not
/// declared.
pub open spec fn listed_role_undefined(
    roles: Seq<Seq<char>>,
    state: Seq<char>,
    allowed: Seq<Seq<char>>,
    k: int,
) -> Option<SemanticErrorView> {
    if roles.contains(allowed[k]) {
        None
    } else {
        Some(undefined_role_error(allowed[k], roles, state_context(state)))
    }
}

/// What is wrong with the `k`-th role of a restriction list when it has
/// occurred earlier in the list.
pub open spec fn listed_role_repeated(state: Seq<char>, allowed: Seq<Seq<char>>, k: int) -> Option<
    SemanticErrorView,
> {
    if allowed.take(k).contains(allowed[k]) {
        Some(repeated_role_error(allowed[k], state_context(state)))
    } else {
        None
    }
}

/// For each role of a restriction list, what is wrong with it when it is not
/// declared.
pub open spec fn undefined_outcomes(
    roles: Seq<Seq<char>>,
    state: Seq<char>,
    allowed: Seq<Seq<char>>,
) -> Seq<Option<SemanticErrorView>> {
    Seq::new(allowed.len(), |k: int| listed_role_undefined(roles, state, allowed, k))
}

/// For each role of a restriction list, what is wrong with it when it has
/// occurred earlier in the list.
pub open spec fn repeated_outcomes(state: Seq<char>, allowed: Seq<Seq<char>>) -> Seq<
    Option<SemanticErrorView>,
> {
    Seq::new(allowed.len(), |k: int| listed_role_repeated(state, allowed, k))
}

/// What is wrong with one state, if anything: the first role of its
/// restriction list that is not declared or, if all are declared, the first
/// that repeats an earlier one.
pub open spec fn state_violation(roles: Seq<Seq<char>>, state: StateView) -> Option<
    SemanticErrorView,
> {
    match state.allowed_roles {
        None => None,
        Some(allowed) => {
            let undefined = first_some(undefined_outcomes(roles, state.name, allowed));
            if undefined is Some {
                undefined
            } else {
                first_some(repeated_outcomes(state.name, allowed))
            }
        },
    }
}

/// What is wrong with the states, if anything: the defect of the first state
/// that has one.
pub open spec fn states_violation(m: Merged) -> Option<SemanticErrorView> {
    first_some(state_outcomes(m))
}

/// For each state, what is wrong with it.
pub open spec fn state_outcomes(m: Merged) -> Seq<Option<SemanticErrorView>> {
    Seq::new(m.states.len(), |i: int| state_violation(m.roles, m.states[i]))
}

/// What is wrong with one endpoint, if anything: its state is not declared;
/// or its role is not declared; or the state restricts its roles and the
/// role is not among them.
pub open spec fn state_ref_violation(m: Merged, r: StateRefView, context: Seq<char>) -> Option<
    SemanticErrorView,
> {
    match lookup_state(m.states, r.state) {
        None => Some(undefined_state_error(r.state, state_names(m.states), context)),
        Some(state) => {
            if !m.roles.contains(r.role) {
                Some(undefined_role_error(r.role, m.roles, context))
            } else {
                match state.allowed_roles {
                    Some(allowed) => if allowed.contains(r.role) {
                        None
                    } else {
                        Some(role_not_allowed_error(r.role, r.state, allowed, context))
                    },
                    None => None,
                }
            }
        },
    }
}

/// What is wrong with the step at index `k` of a sequence, if anything: its
/// start, else its end, else the link to the step before it.
pub open spec fn step_violation(m: Merged, sequence: SequenceView, k: int) -> Option<
    SemanticErrorView,
> {
    let step = sequence.steps[k];
    let context = step_context(sequence.name, k, step.action_name);
    let from = state_ref_violation(m, step.from, context);
    let to = state_ref_violation(m, step.to, context);
    if from is Some {
        from
    } else if to is Some {
        to
    } else if k > 0 && sequence.steps[k - 1].to != step.from {
        Some(broken_chain_error(sequence.steps[k - 1].to, step.from, context))
    } else {
        None
    }
}

/// What is wrong with one sequence, if anything: it has no step, or else the
/// defect of its first step that has one.
pub open spec fn sequence_violation(m: Merged, sequence: SequenceView) -> Option<
    SemanticErrorView,
> {
    if sequence.steps.len() == 0 {
        Some(empty_sequence_error(sequence_context(sequence.name)))
    } else {
        first_some(step_outcomes(m, sequence))
    }
}

/// For each step of a sequence, what is wrong with it.
pub open spec fn step_outcomes(m: Merged, sequence: SequenceView) -> Seq<
    Option<SemanticErrorView>,
> {
    Seq::new(sequence.steps.len(), |k: int| step_violation(m, sequence, k))
}

/// What is wrong with the sequences, if anything: the defect of the first
/// sequence that has one.
pub open spec fn sequences_violation(m: Merged) -> Option<SemanticErrorView> {
    first_some(sequence_outcomes(m))
}

/// For each sequence, what is wrong with it.
pub open spec fn sequence_outcomes(m: Merged) -> Seq<Option<SemanticErrorView>> {
    Seq::new(m.sequences.len(), |i: int| sequence_violation(m, m.sequences[i]))
}

/// What is wrong with the `k`-th member of a group when it is not a declared
/// state.
pub open spec fn member_violation(m: Merged, group: GroupDeclView, k: int) -> Option<
    SemanticErrorView,
> {
    if state_names(m.states).contains(group.states[k]) {
        None
    } else {
        Some(
            undefined_state_error(
                group.states[k],
                state_names(m.states),
                group_context(group.name),
            ),
        )
    }
}

/// What is wrong with one group, if anything: it has no member, or else its
/// first member that is not a declared state.
pub open spec fn group_violation(m: Merged, group: GroupDeclView) -> Option<SemanticErrorView> {
    if group.states.len() == 0 {
        Some(empty_group_error(group_context(group.name)))
    } else {
        first_some(member_outcomes(m, group))
    }
}

/// For each member of a group, what is wrong with it.
pub open spec fn member_outcomes(m: Merged, group: GroupDeclView) -> Seq<
    Option<SemanticErrorView>,
> {
    Seq::new(group.states.len(), |k: int| member_violation(m, group, k))
}

/// What is wrong with the groups, if anything: the defect of the first group
/// that has one.
pub open spec fn groups_violation(m: Merged) -> Option<SemanticErrorView> {
    first_some(group_outcomes(m))
}

/// For each group, what is wrong with it.
pub open spec fn group_outcomes(m: Merged) -> Seq<Option<SemanticErrorView>> {
    Seq::new(m.groups.len(), |i: int| group_violation(m, m.groups[i]))
}

/// The violation that validation reports for what has been accumulated, if
/// there is one: no role at all; else the first defect among the states; else
/// the first among the sequences; else the first among the groups.
pub open spec fn first_violation(m: Merged, system_name: Seq<char>) -> Option<
    SemanticErrorView,
> {
    if m.roles.len() == 0 {
        Some(no_roles_error(system_name))
    } else if states_violation(m) is Some {
        states_violation(m)
    } else if sequences_violation(m) is Some {
        sequences_violation(m)
    } else {
        groups_violation(m)
    }
}

/// A validated system: its name and the merged declarations.
#[derive(Debug)]
pub struct MartialSystem {
    pub name: String,
    pub roles: Vec<String>,
    pub states: Vec<State>,
    pub sequences: Vec<Sequence>,
    pub groups: Vec<GroupDecl>,
}

/// Model of a [`MartialSystem`].
pub struct MartialSystemView {
    pub name: Seq<char>,
    pub roles: Seq<Seq<char>>,
    pub states: Seq<StateView>,
    pub sequences: Seq<SequenceView>,
    pub groups: Seq<GroupDeclView>,
}

impl View for MartialSystem {
    type V = MartialSystemView;

    open spec fn view(&self) -> MartialSystemView {
        MartialSystemView {
            name: self.name@,
            roles: texts(self.roles@),
            states: views(self.states@),
            sequences: views(self.sequences@),
            groups: views(self.groups@),
        }
    }
}

/// The first sequence of `sequences` that is called `name`.
pub open spec fn lookup_sequence(sequences: Seq<SequenceView>, name: Seq<char>) -> Option<
    SequenceView,
> {
    match sequence_names(sequences).index_of_first(name) {
        Some(i) => Some(sequences[i]),
        None => None,
    }
}

/// The first group of `groups` that is called `name`.
pub open spec fn lookup_group(groups: Seq<GroupDeclView>, name: Seq<char>) -> Option<
    GroupDeclView,
> {
    match group_names(groups).index_of_first(name) {
        Some(i) => Some(groups[i]),
        None => None,
    }
}

impl MartialSystem {
    /// The guarantees of a validated system hold of this one.
    pub open spec fn valid(&self) -> bool {
        system_valid(declarations_of(self@))
    }

    /// Whether the system declares the role `name`.
    pub fn has_role(&self, name: &str) -> (r: bool)
        ensures
            r == self@.roles.contains(name@),
    {
        contains_text(&self.roles, name)
    }

    /// The state called `name`, if the system declares one.
    pub fn state(&self, name: &str) -> (r: Option<&State>)
        ensures
            match r {
                Some(state) => lookup_state(self@.states, name@) == Some(state@),
                None => lookup_state(self@.states, name@) is None,
            },
    {
        match find_state(&self.states, name) {
            Some(i) => {
                proof {
                    state_names(self@.states).index_of_first_ensures(name@);
                    assert(self@.states[i as int] == self.states@[i as int]@);
                }
                Some(&self.states[i])
            },
            None => None,
        }
    }

    /// The sequence called `name`, if the system declares one.
    pub fn sequence(&self, name: &str) -> (r: Option<&Sequence>)
        ensures
            match r {
                Some(sequence) => lookup_sequence(self@.sequences, name@) == Some(sequence@),
                None => lookup_sequence(self@.sequences, name@) is None,
            },
    {
        match find_sequence(&self.sequences, name) {
            Some(i) => {
                proof {
                    sequence_names(self@.sequences).index_of_first_ensures(name@);
                    assert(self@.sequences[i as int] == self.sequences@[i as int]@);
                }
                Some(&self.sequences[i])
            },
            None => None,
        }
    }

    /// The group called `name`, if the system declares one.
    pub fn group(&self, name: &str) -> (r: Option<&GroupDecl>)
        ensures
            match r {
                Some(group) => lookup_group(self@.groups, name@) == Some(group@),
                None => lookup_group(self@.groups, name@) is None,
            },
    {
        match find_group(&self.groups, name) {
            Some(i) => {
                proof {
                    group_names(self@.groups).index_of_first_ensures(name@);
                    assert(self@.groups[i as int] == self.groups@[i as int]@);
                }
                Some(&self.groups[i])
            },
            None => None,
        }
    }
}

impl Clone for MartialSystem {
    fn clone(&self) -> (r: Self)
        ensures
            r@ == self@,
    {
        let states = self.states.clone();
        let sequences = self.sequences.clone();
        let groups = self.groups.clone();
        assert(views(states@) =~= views(self.states@));
        assert(views(sequences@) =~= views(self.sequences@));
        assert(views(groups@) =~= views(self.groups@));
        MartialSystem {
            name: self.name.clone(),
            roles: clone_texts(&self.roles),
            states,
            sequences,
            groups,
        }
    }
}

/// The declarations of a system, without its name.
pub open spec fn declarations_of(system: MartialSystemView) -> Merged {
    Merged {
        roles: system.roles,
        states: system.states,
        sequences: system.sequences,
        groups: system.groups,
    }
}

/// The system called `name` that holds the declarations `m`.
pub open spec fn system_of(name: Seq<char>, m: Merged) -> MartialSystemView {
    MartialSystemView {
        name,
        roles: m.roles,
        states: m.states,
        sequences: m.sequences,
        groups: m.groups,
    }
}

/// The restriction list of a state names declared roles only, and none twice.
pub open spec fn state_valid(roles: Seq<Seq<char>>, state: StateView) -> bool {
    match state.allowed_roles {
        None => true,
        Some(allowed) => {
            &&& allowed.no_duplicates()
            &&& forall|k: int| 0 <= k < allowed.len() ==> roles.contains(#[trigger] allowed[k])
        },
    }
}

/// An endpoint resolves: its state and its role are declared, and the state
/// admits the role.
pub open spec fn state_ref_valid(m: Merged, r: StateRefView) -> bool {
    &&& m.roles.contains(r.role)
    &&& exists|i: int|
        0 <= i < m.states.len() && (#[trigger] m.states[i]).name == r.state && (match m.states[i].allowed_roles {
            Some(allowed) => allowed.contains(r.role),
            None => true,
        })
}

/// A sequence has a step, its endpoints resolve, and each step starts where
/// the step before it ends.
pub open spec fn sequence_valid(m: Merged, sequence: SequenceView) -> bool {
    &&& sequence.steps.len() > 0
    &&& forall|k: int|
        0 <= k < sequence.steps.len() ==> state_ref_valid(m, (#[trigger] sequence.steps[k]).from)
            && state_ref_valid(m, sequence.steps[k].to)
    &&& forall|k: int|
        0 < k < sequence.steps.len() ==> sequence.steps[k - 1].to == (
        #[trigger] sequence.steps[k]).from
}

/// A group has a member, and its members are declared states.
pub open spec fn group_valid(m: Merged, group: GroupDeclView) -> bool {
    &&& group.states.len() > 0
    &&& forall|k: int|
        0 <= k < group.states.len() ==> state_names(m.states).contains(#[trigger] group.states[k])
}

/// What holds of a validated system: there is a role; within each kind no
/// name is empty or used twice; and every state, sequence and group is valid.
pub open spec fn system_valid(m: Merged) -> bool {
    &&& m.roles.len() > 0
    &&& merged_wf(m)
    &&& forall|i: int| 0 <= i < m.states.len() ==> state_valid(m.roles, #[trigger] m.states[i])
    &&& forall|i: int|
        0 <= i < m.sequences.len() ==> sequence_valid(m, #[trigger] m.sequences[i])
    &&& forall|i: int| 0 <= i < m.groups.len() ==> group_valid(m, #[trigger] m.groups[i])
}

fn state_context_of(name: &str) -> (r: String)
    ensures
        r@ == state_context(name@),
{
    let mut out = String::from_str("state ");
    out.append(name);
    out
}

fn sequence_context_of(name: &str) -> (r: String)
    ensures
        r@ == sequence_context(name@),
{
    let mut out = String::from_str("sequence ");
    out.append(name);
    out
}

fn step_context_of(name: &str, index: usize, action: &str) -> (r: String)
    requires
        index < usize::MAX,
    ensures
        r@ == step_context(name@, index as int, action@),
{
    let mut out = String::from_str("sequence ");
    out.append(name);
    out.append(" step ");
    push_decimal(&mut out, index + 1);
    out.append(" (");
    out.append(action);
    out.append(")");
    out
}

fn group_context_of(name: &str) -> (r: String)
    ensures
        r@ == group_context(name@),
{
    let mut out = String::from_str("group ");
    out.append(name);
    out
}

fn undefined_role(role: &str, roles: &Vec<String>, context: String) -> (r: SemanticError)
    ensures
        r@ == undefined_role_error(role@, texts(roles@), context@),
{
    let mut message = String::from_str("Role '");
    message.append(role);
    message.append("' is not defined. Available roles: ");
    let available = join(roles, ", ");
    message.append(available.as_str());
    SemanticError { message, context }
}

fn repeated_role(role: &str, context: String) -> (r: SemanticError)
    ensures
        r@ == repeated_role_error(role@, context@),
{
    let mut message = String::from_str("Role '");
    message.append(role);
    message.append("' appears multiple times");
    SemanticError { message, context }
}

fn undefined_state(state: &str, states: &Vec<State>, context: String) -> (r: SemanticError)
    ensures
        r@ == undefined_state_error(state@, state_names(views(states@)), context@),
{
    let mut names: Vec<String> = Vec::new();
    let mut i: usize = 0;
    while i < states.len()
        invariant
            i <= states.len(),
            names.len() == i,
            texts(names@) == state_names(views(states@)).take(i as int),
        decreases states.len() - i,
    {
        let ghost before = names@;
        names.push(states[i].name.clone());
        assert forall|j: int| 0 <= j < i + 1 implies texts(names@)[j] == state_names(
            views(states@),
        )[j] by {
            if j < i {
                assert(texts(before)[j] == state_names(views(states@)).take(i as int)[j]);
            }
        }
        assert(texts(names@) =~= state_names(views(states@)).take(i + 1));
        i += 1;
    }
    assert(state_names(views(states@)).take(i as int) =~= state_names(views(states@)));
    let mut message = String::from_str("State '");
    message.append(state);
    message.append("' is not defined. Available states: ");
    let available = join(&names, ", ");
    message.append(available.as_str());
    SemanticError { message, context }
}

fn role_not_allowed(role: &str, state: &str, allowed: &Vec<String>, context: String) -> (r:
    SemanticError)
    ensures
        r@ == role_not_allowed_error(role@, state@, texts(allowed@), context@),
{
    let mut message = String::from_str("Role '");
    message.append(role);
    message.append("' is not allowed for state '");
    message.append(state);
    message.append("'. Allowed roles: ");
    let listed = join(allowed, ", ");
    message.append(listed.as_str());
    SemanticError { message, context }
}

fn push_state_ref(out: &mut String, r: &StateRef)
    ensures
        final(out)@ == old(out)@ + state_ref_text(r@),
{
    let ghost before = out@;
    out.append(r.state.as_str());
    out.append("[");
    out.append(r.role.as_str());
    out.append("]");
    assert(out@ =~= before + state_ref_text(r@));
}

fn broken_chain(previous_to: &StateRef, from: &StateRef, context: String) -> (r: SemanticError)
    ensures
        r@ == broken_chain_error(previous_to@, from@, context@),
{
    let mut message = String::from_str("Step chain is broken: previous step ends at ");
    push_state_ref(&mut message, previous_to);
    message.append(", but this step starts at ");
    push_state_ref(&mut message, from);
    SemanticError { message, context }
}

/// Whether two endpoints name the same state and the same role.
pub fn same_state_ref(a: &StateRef, b: &StateRef) -> (r: bool)
    ensures
        r == (a@ == b@),
{
    same_text(a.state.as_str(), b.state.as_str()) && same_text(a.role.as_str(), b.role.as_str())
}

/// Whether the string at index `k` of `list` occurs before `k` as well.
fn occurs_before(list: &Vec<String>, k: usize) -> (r: bool)
    requires
        k < list.len(),
    ensures
        r == texts(list@).take(k as int).contains(texts(list@)[k as int]),
{
    let ghost names = texts(list@);
    let mut j: usize = 0;
    while j < k
        invariant
            j <= k,
            k < list.len(),
            names == texts(list@),
            forall|h: int| 0 <= h < j ==> names[h] != names[k as int],
        decreases k - j,
    {
        if same_text(list[j].as_str(), list[k].as_str()) {
            assert(names.take(k as int)[j as int] == names[k as int]);
            return true;
        }
        j += 1;
    }
    false
}

impl SemanticValidator {
    /// Checks the accumulated declarations as a whole and, if they pass,
    /// hands them out as the system called `system_name`.
    ///
    /// The system must declare a role. Then the states are checked, then the
    /// sequences, then the groups, each kind in order of declaration; the
    /// first defect is the error.
    pub fn validate(self, system_name: String) -> (r: Result<MartialSystem, SemanticError>)
        requires
            self.wf(),
        ensures
            match r {
                Ok(system) => {
                    &&& first_violation(self@, system_name@) is None
                    &&& system@ == system_of(system_name@, self@)
                    &&& system.valid()
                },
                Err(e) => first_violation(self@, system_name@) == Some(e@),
            },
            r is Ok <==> system_valid(self@),
    {
        proof {
            lemma_no_violation_iff_valid(self@, system_name@);
        }
        if self.roles.len() == 0 {
            return Err(
                SemanticError {
                    message: String::from_str(
                        "No roles defined. At least one role declaration is required.",
                    ),
                    context: system_name,
                },
            );
        }
        match self.validate_states() {
            Err(e) => {
                return Err(e);
            },
            Ok(_) => {},
        }
        match self.validate_sequences() {
            Err(e) => {
                return Err(e);
            },
            Ok(_) => {},
        }
        match self.validate_groups() {
            Err(e) => {
                return Err(e);
            },
            Ok(_) => {},
        }
        Ok(
            MartialSystem {
                name: system_name,
                roles: self.roles,
                states: self.states,
                sequences: self.sequences,
                groups: self.groups,
            },
        )
    }

    /// Checks the role list of one state against the declared roles: every
    /// listed role must be declared, and none may be listed twice.
    pub fn validate_state(&self, state: &State) -> (r: Result<(), SemanticError>)
        ensures
            match r {
                Ok(_) => state_violation(self@.roles, state@) is None,
                Err(e) => state_violation(self@.roles, state@) == Some(e@),
            },
    {
        let allowed = match &state.allowed_roles {
            Some(allowed) => allowed,
            None => {
                return Ok(());
            },
        };
        let ghost roles = self@.roles;
        let ghost listed = texts(allowed@);
        let ghost undefined = undefined_outcomes(roles, state@.name, listed);
        let ghost repeated = repeated_outcomes(state@.name, listed);
        let mut k: usize = 0;
        while k < allowed.len()
            invariant
                k <= allowed.len(),
                roles == self@.roles,
                listed == texts(allowed@),
                state@.allowed_roles == Some(listed),
                undefined == undefined_outcomes(roles, state@.name, listed),
                forall|j: int| 0 <= j < k ==> undefined[j] is None,
            decreases allowed.len() - k,
        {
            assert(listed[k as int] == allowed@[k as int]@);
            if !contains_text(&self.roles, allowed[k].as_str()) {
                proof {
                    lemma_first_some_found(undefined, k as int);
                }
                return Err(
                    undefined_role(
                        allowed[k].as_str(),
                        &self.roles,
                        state_context_of(state.name.as_str()),
                    ),
                );
            }
            k += 1;
        }
        proof {
            lemma_first_some_none(undefined);
        }
        let mut k: usize = 0;
        while k < allowed.len()
            invariant
                k <= allowed.len(),
                listed == texts(allowed@),
                state@.allowed_roles == Some(listed),
                first_some(undefined_outcomes(self@.roles, state@.name, listed)) is None,
                repeated == repeated_outcomes(state@.name, listed),
                forall|j: int| 0 <= j < k ==> repeated[j] is None,
            decreases allowed.len() - k,
        {
            assert(listed[k as int] == allowed@[k as int]@);
            if occurs_before(allowed, k) {
                proof {
                    lemma_first_some_found(repeated, k as int);
                }
                return Err(
                    repeated_role(allowed[k].as_str(), state_context_of(state.name.as_str())),
                );
            }
            k += 1;
        }
        proof {
            lemma_first_some_none(repeated);
        }
        Ok(())
    }

    /// Checks the accumulated states, in order of declaration, up to the
    /// first defect.
    pub fn validate_states(&self) -> (r: Result<(), SemanticError>)
        ensures
            match r {
                Ok(_) => states_violation(self@) is None,
                Err(e) => states_violation(self@) == Some(e@),
            },
    {
        let ghost outcomes = state_outcomes(self@);
        let mut i: usize = 0;
        while i < self.states.len()
            invariant
                i <= self.states.len(),
                outcomes == state_outcomes(self@),
                forall|j: int| 0 <= j < i ==> outcomes[j] is None,
            decreases self.states.len() - i,
        {
            assert(self@.states[i as int] == self.states@[i as int]@);
            match self.validate_state(&self.states[i]) {
                Err(e) => {
                    proof {
                        lemma_first_some_found(outcomes, i as int);
                    }
                    return Err(e);
                },
                Ok(_) => {},
            }
            i += 1;
        }
        proof {
            lemma_first_some_none(outcomes);
        }
        Ok(())
    }

    /// Checks one group: it must have a member, and its members must be
    /// declared states.
    pub fn validate_group(&self, group: &GroupDecl) -> (r: Result<(), SemanticError>)
        ensures
            match r {
                Ok(_) => group_violation(self@, group@) is None,
                Err(e) => group_violation(self@, group@) == Some(e@),
            },
    {
        if group.states.len() == 0 {
            return Err(
                SemanticError {
                    message: String::from_str("Group must contain at least one state"),
                    context: group_context_of(group.name.as_str()),
                },
            );
        }
        let ghost outcomes = member_outcomes(self@, group@);
        let mut k: usize = 0;
        while k < group.states.len()
            invariant
                k <= group.states.len(),
                outcomes == member_outcomes(self@, group@),
                forall|j: int| 0 <= j < k ==> outcomes[j] is None,
            decreases group.states.len() - k,
        {
            assert(group@.states[k as int] == group.states@[k as int]@);
            proof {
                state_names(self@.states).index_of_first_ensures(group@.states[k as int]);
            }
            if find_state(&self.states, group.states[k].as_str()).is_none() {
                proof {
                    lemma_first_some_found(outcomes, k as int);
                }
                return Err(
                    undefined_state(
                        group.states[k].as_str(),
                        &self.states,
                        group_context_of(group.name.as_str()),
                    ),
                );
            }
            k += 1;
        }
        proof {
            lemma_first_some_none(outcomes);
        }
        Ok(())
    }

    /// Checks the accumulated groups, in order of declaration, up to the
    /// first defect.
    pub fn validate_groups(&self) -> (r: Result<(), SemanticError>)
        ensures
            match r {
                Ok(_) => groups_violation(self@) is None,
                Err(e) => groups_violation(self@) == Some(e@),
            },
    {
        let ghost outcomes = group_outcomes(self@);
        let mut i: usize = 0;
        while i < self.groups.len()
            invariant
                i <= self.groups.len(),
                outcomes == group_outcomes(self@),
                forall|j: int| 0 <= j < i ==> outcomes[j] is None,
            decreases self.groups.len() - i,
        {
            assert(self@.groups[i as int] == self.groups@[i as int]@);
            match self.validate_group(&self.groups[i]) {
                Err(e) => {
                    proof {
                        lemma_first_some_found(outcomes, i as int);
                    }
                    return Err(e);
                },
                Ok(_) => {},
            }
            i += 1;
        }
        proof {
            lemma_first_some_none(outcomes);
        }
        Ok(())
    }

    /// Checks one sequence: it must have a step; of each step, in order, the
    /// start, the end, and the link to the step before it.
    pub fn validate_sequence(&self, sequence: &Sequence) -> (r: Result<(), SemanticError>)
        ensures
            match r {
                Ok(_) => sequence_violation(self@, sequence@) is None,
                Err(e) => sequence_violation(self@, sequence@) == Some(e@),
            },
    {
        if sequence.steps.len() == 0 {
            return Err(
                SemanticError {
                    message: String::from_str("Sequence must have at least one step"),
                    context: sequence_context_of(sequence.name.as_str()),
                },
            );
        }
        let ghost outcomes = step_outcomes(self@, sequence@);
        let mut k: usize = 0;
        while k < sequence.steps.len()
            invariant
                k <= sequence.steps.len(),
                outcomes == step_outcomes(self@, sequence@),
                forall|j: int| 0 <= j < k ==> outcomes[j] is None,
            decreases sequence.steps.len() - k,
        {
            let step = &sequence.steps[k];
            assert(sequence@.steps[k as int] == step@);
            let step_context = step_context_of(
                sequence.name.as_str(),
                k,
                step.action_name.as_str(),
            );
            match self.validate_state_ref(&step.from, step_context.as_str()) {
                Err(e) => {
                    proof {
                        lemma_first_some_found(outcomes, k as int);
                    }
                    return Err(e);
                },
                Ok(_) => {},
            }
            match self.validate_state_ref(&step.to, step_context.as_str()) {
                Err(e) => {
                    proof {
                        lemma_first_some_found(outcomes, k as int);
                    }
                    return Err(e);
                },
                Ok(_) => {},
            }
            if k > 0 {
                let previous = &sequence.steps[k - 1];
                assert(sequence@.steps[k - 1] == previous@);
                if !same_state_ref(&previous.to, &step.from) {
                    proof {
                        lemma_first_some_found(outcomes, k as int);
                    }
                    return Err(broken_chain(&previous.to, &step.from, step_context));
                }
            }
            k += 1;
        }
        proof {
            lemma_first_some_none(outcomes);
        }
        Ok(())
    }

    /// Checks the accumulated sequences, in order of declaration, up to the
    /// first defect.
    pub fn validate_sequences(&self) -> (r: Result<(), SemanticError>)
        ensures
            match r {
                Ok(_) => sequences_violation(self@) is None,
                Err(e) => sequences_violation(self@) == Some(e@),
            },
    {
        let ghost outcomes = sequence_outcomes(self@);
        let mut i: usize = 0;
        while i < self.sequences.len()
            invariant
                i <= self.sequences.len(),
                outcomes == sequence_outcomes(self@),
                forall|j: int| 0 <= j < i ==> outcomes[j] is None,
            decreases self.sequences.len() - i,
        {
            assert(self@.sequences[i as int] == self.sequences@[i as int]@);
            match self.validate_sequence(&self.sequences[i]) {
                Err(e) => {
                    proof {
                        lemma_first_some_found(outcomes, i as int);
                    }
                    return Err(e);
                },
                Ok(_) => {},
            }
            i += 1;
        }
        proof {
            lemma_first_some_none(outcomes);
        }
        Ok(())
    }

    /// Checks one endpoint: its state must be declared, its role must be
    /// declared, and a state that restricts its roles must list the role. An
    /// error carries `context`.
    pub fn validate_state_ref(&self, state_ref: &StateRef, context: &str) -> (r: Result<
        (),
        SemanticError,
    >)
        ensures
            match r {
                Ok(_) => state_ref_violation(self@, state_ref@, context@) is None,
                Err(e) => state_ref_violation(self@, state_ref@, context@) == Some(e@),
            },
    {
        let state = match find_state(&self.states, state_ref.state.as_str()) {
            Some(i) => {
                proof {
                    state_names(self@.states).index_of_first_ensures(state_ref@.state);
                    assert(self@.states[i as int] == self.states@[i as int]@);
                }
                &self.states[i]
            },
            None => {
                return Err(
                    undefined_state(
                        state_ref.state.as_str(),
                        &self.states,
                        String::from_str(context),
                    ),
                );
            },
        };
        if !contains_text(&self.roles, state_ref.role.as_str()) {
            return Err(
                undefined_role(state_ref.role.as_str(), &self.roles, String::from_str(context)),
            );
        }
        match &state.allowed_roles {
            Some(allowed) => {
                if !contains_text(allowed, state_ref.role.as_str()) {
                    return Err(
                        role_not_allowed(
                            state_ref.role.as_str(),
                            state_ref.state.as_str(),
                            allowed,
                            String::from_str(context),
                        ),
                    );
                }
            },
            None => {},
        }
        Ok(())
    }
}

/// A state passes its check exactly when it is valid.
pub proof fn lemma_state_violation_iff(roles: Seq<Seq<char>>, state: StateView)
    ensures
        state_violation(roles, state) is None <==> state_valid(roles, state),
{
    match state.allowed_roles {
        None => {},
        Some(allowed) => {
            let undefined = undefined_outcomes(roles, state.name, allowed);
            let repeated = repeated_outcomes(state.name, allowed);
            if state_valid(roles, state) {
                assert forall|k: int| 0 <= k < allowed.len() implies undefined[k] is None by {
                    assert(roles.contains(allowed[k]));
                }
                lemma_first_some_none(undefined);
                assert forall|k: int| 0 <= k < allowed.len() implies repeated[k] is None by {
                    if allowed.take(k).contains(allowed[k]) {
                        let j = choose|j: int|
                            0 <= j < allowed.take(k).len() && allowed.take(k)[j] == allowed[k];
                        assert(allowed[j] == allowed[k]);
                    }
                }
                lemma_first_some_none(repeated);
            }
            if state_violation(roles, state) is None {
                lemma_first_some_absent(undefined);
                lemma_first_some_absent(repeated);
                assert forall|k: int| 0 <= k < allowed.len() implies roles.contains(
                    #[trigger] allowed[k],
                ) by {
                    assert(undefined[k] is None);
                }
                assert forall|i: int, j: int|
                    0 <= i < allowed.len() && 0 <= j < allowed.len() && i != j implies allowed[i]
                    != allowed[j] by {
                    let (lo, hi) = if i < j {
                        (i, j)
                    } else {
                        (j, i)
                    };
                    assert(repeated[hi] is None);
                    assert(allowed.take(hi)[lo] == allowed[lo]);
                }
            }
        },
    }
}

/// An endpoint passes its check exactly when it resolves.
pub proof fn lemma_state_ref_violation_iff(m: Merged, r: StateRefView, context: Seq<char>)
    requires
        merged_wf(m),
    ensures
        state_ref_violation(m, r, context) is None <==> state_ref_valid(m, r),
{
    let names = state_names(m.states);
    names.index_of_first_ensures(r.state);
    if state_ref_valid(m, r) {
        let i = choose|i: int|
            0 <= i < m.states.len() && (#[trigger] m.states[i]).name == r.state && (match m.states[i].allowed_roles {
                Some(allowed) => allowed.contains(r.role),
                None => true,
            });
        assert(names[i] == r.state);
        let first = names.index_of_first(r.state)->0;
        assert(first == i);
    }
    if state_ref_violation(m, r, context) is None {
        let first = names.index_of_first(r.state)->0;
        assert(m.states[first].name == names[first]);
    }
}

/// A sequence passes its check exactly when it is valid.
pub proof fn lemma_sequence_violation_iff(m: Merged, sequence: SequenceView)
    requires
        merged_wf(m),
    ensures
        sequence_violation(m, sequence) is None <==> sequence_valid(m, sequence),
{
    let outcomes = step_outcomes(m, sequence);
    assert forall|k: int| 0 <= k < sequence.steps.len() implies (outcomes[k] is None <==> (
        state_ref_valid(m, sequence.steps[k].from) && state_ref_valid(m, sequence.steps[k].to) && (k
            > 0 ==> sequence.steps[k - 1].to == sequence.steps[k].from))) by {
        let step = sequence.steps[k];
        let context = step_context(sequence.name, k, step.action_name);
        lemma_state_ref_violation_iff(m, step.from, context);
        lemma_state_ref_violation_iff(m, step.to, context);
    }
    if sequence.steps.len() > 0 {
        if sequence_valid(m, sequence) {
            assert forall|k: int| 0 <= k < outcomes.len() implies outcomes[k] is None by {
                assert(state_ref_valid(m, sequence.steps[k].from));
            }
            lemma_first_some_none(outcomes);
        }
        if sequence_violation(m, sequence) is None {
            lemma_first_some_absent(outcomes);
            assert forall|k: int| 0 <= k < sequence.steps.len() implies state_ref_valid(
                m,
                (#[trigger] sequence.steps[k]).from,
            ) && state_ref_valid(m, sequence.steps[k].to) by {
                assert(outcomes[k] is None);
            }
            assert forall|k: int| 0 < k < sequence.steps.len() implies sequence.steps[k - 1].to
                == (#[trigger] sequence.steps[k]).from by {
                assert(outcomes[k] is None);
            }
        }
    }
}

/// A group passes its check exactly when it is valid.
pub proof fn lemma_group_violation_iff(m: Merged, group: GroupDeclView)
    ensures
        group_violation(m, group) is None <==> group_valid(m, group),
{
    let outcomes = member_outcomes(m, group);
    if group.states.len() > 0 {
        if group_valid(m, group) {
            assert forall|k: int| 0 <= k < outcomes.len() implies outcomes[k] is None by {
                assert(state_names(m.states).contains(group.states[k]));
            }
            lemma_first_some_none(outcomes);
        }
        if group_violation(m, group) is None {
            lemma_first_some_absent(outcomes);
            assert forall|k: int| 0 <= k < group.states.len() implies state_names(
                m.states,
            ).contains(#[trigger] group.states[k]) by {
                assert(outcomes[k] is None);
            }
        }
    }
}

/// Validation finds nothing to report exactly when the accumulated
/// declarations form a valid system.
pub proof fn lemma_no_violation_iff_valid(m: Merged, system_name: Seq<char>)
    requires
        merged_wf(m),
    ensures
        first_violation(m, system_name) is None <==> system_valid(m),
{
    let states = state_outcomes(m);
    let sequences = sequence_outcomes(m);
    let groups = group_outcomes(m);
    assert forall|i: int| 0 <= i < m.states.len() implies (states[i] is None <==> state_valid(
        m.roles,
        m.states[i],
    )) by {
        lemma_state_violation_iff(m.roles, m.states[i]);
    }
    assert forall|i: int| 0 <= i < m.sequences.len() implies (sequences[i] is None
        <==> sequence_valid(m, m.sequences[i])) by {
        lemma_sequence_violation_iff(m, m.sequences[i]);
    }
    assert forall|i: int| 0 <= i < m.groups.len() implies (groups[i] is None <==> group_valid(
        m,
        m.groups[i],
    )) by {
        lemma_group_violation_iff(m, m.groups[i]);
    }
    if system_valid(m) {
        assert forall|i: int| 0 <= i < states.len() implies states[i] is None by {
            assert(state_valid(m.roles, m.states[i]));
        }
        assert forall|i: int| 0 <= i < sequences.len() implies sequences[i] is None by {
            assert(sequence_valid(m, m.sequences[i]));
        }
        assert forall|i: int| 0 <= i < groups.len() implies groups[i] is None by {
            assert(group_valid(m, m.groups[i]));
        }
        lemma_first_some_none(states);
        lemma_first_some_none(sequences);
        lemma_first_some_none(groups);
    }
    if first_violation(m, system_name) is None {
        lemma_first_some_absent(states);
        lemma_first_some_absent(sequences);
        lemma_first_some_absent(groups);
        assert forall|i: int| 0 <= i < m.states.len() implies state_valid(
            m.roles,
            #[trigger] m.states[i],
        ) by {
            assert(states[i] is None);
        }
        assert forall|i: int| 0 <= i < m.sequences.len() implies sequence_valid(
            m,
            #[trigger] m.sequences[i],
        ) by {
            assert(sequences[i] is None);
        }
        assert forall|i: int| 0 <= i < m.groups.len() implies group_valid(
            m,
            #[trigger] m.groups[i],
        ) by {
            assert(groups[i] is None);
        }
    }
}

} // verus!
