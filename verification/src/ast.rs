//! The syntax tree of one source unit, and its mathematical model.
//!
//! Each node type has a view in which every string is the sequence of its
//! characters and every list is a sequence of views. Contracts throughout the
//! crate are stated over these views.

use vstd::prelude::*;
use crate::text::{clone_texts, texts};

verus! {

/// The views of a sequence of values, in order.
pub open spec fn views<T: View>(items: Seq<T>) -> Seq<T::V> {
    items.map_values(|item: T| item@)
}

/// A roles declaration, as in `roles { Top, Bottom, Neutral }`.
///
/// It may occur in several units; the declared roles accumulate.
#[derive(Debug, PartialEq)]
pub struct RolesDecl {
    pub roles: Vec<String>,
}

/// Model of a [`RolesDecl`].
pub struct RolesDeclView {
    pub roles: Seq<Seq<char>>,
}

impl View for RolesDecl {
    type V = RolesDeclView;

    open spec fn view(&self) -> RolesDeclView {
        RolesDeclView { roles: texts(self.roles@) }
    }
}

impl Clone for RolesDecl {
    fn clone(&self) -> (r: Self)
        ensures
            r@ == self@,
    {
        RolesDecl { roles: clone_texts(&self.roles) }
    }
}

/// A state declaration, as in `state Mount roles { Top, Bottom }`.
///
/// Without a role list every declared role may take the state; with one,
/// exactly the listed roles may.
#[derive(Debug, PartialEq)]
pub struct State {
    pub name: String,
    pub allowed_roles: Option<Vec<String>>,
}

/// Model of a [`State`].
pub struct StateView {
    pub name: Seq<char>,
    pub allowed_roles: Option<Seq<Seq<char>>>,
}

impl View for State {
    type V = StateView;

    open spec fn view(&self) -> StateView {
        StateView {
            name: self.name@,
            allowed_roles: match self.allowed_roles {
                Some(roles) => Some(texts(roles@)),
                None => None,
            },
        }
    }
}

impl Clone for State {
    fn clone(&self) -> (r: Self)
        ensures
            r@ == self@,
    {
        let allowed_roles = match &self.allowed_roles {
            Some(roles) => Some(clone_texts(roles)),
            None => None,
        };
        State { name: self.name.clone(), allowed_roles }
    }
}

/// One endpoint of a step: a state taken by a role, as in `Mount[Top]`.
#[derive(Debug, PartialEq)]
pub struct StateRef {
    pub state: String,
    pub role: String,
}

/// Model of a [`StateRef`].
pub struct StateRefView {
    pub state: Seq<char>,
    pub role: Seq<char>,
}

impl View for StateRef {
    type V = StateRefView;

    open spec fn view(&self) -> StateRefView {
        StateRefView { state: self.state@, role: self.role@ }
    }
}

impl Clone for StateRef {
    fn clone(&self) -> (r: Self)
        ensures
            r@ == self@,
    {
        StateRef { state: self.state.clone(), role: self.role.clone() }
    }
}

/// One step of a sequence: a named action that leads from one endpoint to
/// another, as in `KneeCut: Headquarters[Top] -> SideControl[Top]`.
#[derive(Debug, PartialEq)]
pub struct SequenceStep {
    pub action_name: String,
    pub from: StateRef,
    pub to: StateRef,
}

/// Model of a [`SequenceStep`].
pub struct SequenceStepView {
    pub action_name: Seq<char>,
    pub from: StateRefView,
    pub to: StateRefView,
}

impl View for SequenceStep {
    type V = SequenceStepView;

    open spec fn view(&self) -> SequenceStepView {
        SequenceStepView { action_name: self.action_name@, from: self.from@, to: self.to@ }
    }
}

impl Clone for SequenceStep {
    fn clone(&self) -> (r: Self)
        ensures
            r@ == self@,
    {
        SequenceStep {
            action_name: self.action_name.clone(),
            from: self.from.clone(),
            to: self.to.clone(),
        }
    }
}

/// A sequence declaration: a named, ordered list of steps that is meant to
/// describe one continuous movement.
#[derive(Debug, PartialEq)]
pub struct Sequence {
    pub name: String,
    pub steps: Vec<SequenceStep>,
}

/// Model of a [`Sequence`].
pub struct SequenceView {
    pub name: Seq<char>,
    pub steps: Seq<SequenceStepView>,
}

impl View for Sequence {
    type V = SequenceView;

    open spec fn view(&self) -> SequenceView {
        SequenceView { name: self.name@, steps: views(self.steps@) }
    }
}

impl Clone for Sequence {
    fn clone(&self) -> (r: Self)
        ensures
            r@ == self@,
    {
        let steps = self.steps.clone();
        assert(views(steps@) =~= views(self.steps@));
        Sequence { name: self.name.clone(), steps }
    }
}

/// A group declaration: a named cluster of states, as in
/// `group GuardFamily { ClosedGuard, OpenGuard }`.
#[derive(Debug, PartialEq)]
pub struct GroupDecl {
    pub name: String,
    pub states: Vec<String>,
}

/// Model of a [`GroupDecl`].
pub struct GroupDeclView {
    pub name: Seq<char>,
    pub states: Seq<Seq<char>>,
}

impl View for GroupDecl {
    type V = GroupDeclView;

    open spec fn view(&self) -> GroupDeclView {
        GroupDeclView { name: self.name@, states: texts(self.states@) }
    }
}

impl Clone for GroupDecl {
    fn clone(&self) -> (r: Self)
        ensures
            r@ == self@,
    {
        GroupDecl { name: self.name.clone(), states: clone_texts(&self.states) }
    }
}

/// A declaration at the top level of a unit.
#[derive(Debug, PartialEq)]
pub enum Declaration {
    Roles(RolesDecl),
    State(State),
    Sequence(Sequence),
    Group(GroupDecl),
}

/// Model of a [`Declaration`].
pub enum DeclarationView {
    Roles(RolesDeclView),
    State(StateView),
    Sequence(SequenceView),
    Group(GroupDeclView),
}

impl View for Declaration {
    type V = DeclarationView;

    open spec fn view(&self) -> DeclarationView {
        match self {
            Declaration::Roles(d) => DeclarationView::Roles(d@),
            Declaration::State(d) => DeclarationView::State(d@),
            Declaration::Sequence(d) => DeclarationView::Sequence(d@),
            Declaration::Group(d) => DeclarationView::Group(d@),
        }
    }
}

impl Clone for Declaration {
    fn clone(&self) -> (r: Self)
        ensures
            r@ == self@,
    {
        match self {
            Declaration::Roles(d) => Declaration::Roles(d.clone()),
            Declaration::State(d) => Declaration::State(d.clone()),
            Declaration::Sequence(d) => Declaration::Sequence(d.clone()),
            Declaration::Group(d) => Declaration::Group(d.clone()),
        }
    }
}

/// One parsed source unit: its declarations in the order in which they were
/// written.
#[derive(Debug, PartialEq)]
pub struct MartialFile {
    pub declarations: Vec<Declaration>,
}

/// Model of a [`MartialFile`].
pub struct MartialFileView {
    pub declarations: Seq<DeclarationView>,
}

impl View for MartialFile {
    type V = MartialFileView;

    open spec fn view(&self) -> MartialFileView {
        MartialFileView { declarations: views(self.declarations@) }
    }
}

impl Clone for MartialFile {
    fn clone(&self) -> (r: Self)
        ensures
            r@ == self@,
    {
        let declarations = self.declarations.clone();
        assert(views(declarations@) =~= views(self.declarations@));
        MartialFile { declarations }
    }
}

} // verus!
