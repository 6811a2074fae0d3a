use martial_lang::ast::{
    Declaration, GroupDecl, MartialFile, RolesDecl, Sequence, SequenceStep, State, StateRef,
};
use martial_lang::semantic::{
    find_group, find_sequence, find_state, same_state_ref, SemanticError, SemanticValidator,
};

fn make_roles(roles: Vec<&str>) -> RolesDecl {
    RolesDecl { roles: roles.into_iter().map(|s| s.to_string()).collect() }
}

fn make_state(name: &str, allowed_roles: Option<Vec<&str>>) -> State {
    State {
        name: name.to_string(),
        allowed_roles: allowed_roles.map(|r| r.into_iter().map(|s| s.to_string()).collect()),
    }
}

fn make_state_ref(state: &str, role: &str) -> StateRef {
    StateRef { state: state.to_string(), role: role.to_string() }
}

fn make_step(action: &str, from: (&str, &str), to: (&str, &str)) -> SequenceStep {
    SequenceStep {
        action_name: action.to_string(),
        from: make_state_ref(from.0, from.1),
        to: make_state_ref(to.0, to.1),
    }
}

fn make_sequence(name: &str, steps: Vec<SequenceStep>) -> Sequence {
    Sequence { name: name.to_string(), steps }
}

fn make_group(name: &str, states: Vec<&str>) -> GroupDecl {
    GroupDecl { name: name.to_string(), states: states.into_iter().map(|s| s.to_string()).collect() }
}

fn strings(list: Vec<&str>) -> Vec<String> {
    list.into_iter().map(|s| s.to_string()).collect()
}

fn error(message: &str, context: &str) -> SemanticError {
    SemanticError { message: message.to_string(), context: context.to_string() }
}

#[test]
fn test_merge_roles() {
    let mut validator = SemanticValidator::new();
    validator.add_roles(make_roles(vec!["Top", "Bottom"])).unwrap();
    validator.add_roles(make_roles(vec!["Neutral"])).unwrap();

    assert_eq!(validator.roles().len(), 3);
    assert!(validator.roles().contains(&"Top".to_string()));
    assert!(validator.roles().contains(&"Bottom".to_string()));
    assert!(validator.roles().contains(&"Neutral".to_string()));
}

#[test]
fn test_duplicate_state() {
    let mut validator = SemanticValidator::new();
    validator.add_state(make_state("Mount", None)).unwrap();
    let result = validator.add_state(make_state("Mount", None));

    assert!(result.is_err());
    assert!(result.unwrap_err().message.contains("already defined"));
}

#[test]
fn test_state_with_undefined_role() {
    let mut validator = SemanticValidator::new();
    validator.add_roles(make_roles(vec!["Top"])).unwrap();
    validator.add_state(make_state("Mount", Some(vec!["Top", "Bottom"]))).unwrap();

    let result = validator.validate("test".to_string());
    assert!(result.is_err());
    assert!(result.unwrap_err().message.contains("Role 'Bottom' is not defined"));
}

#[test]
fn test_sequence_with_undefined_state() {
    let mut validator = SemanticValidator::new();
    validator.add_roles(make_roles(vec!["Top"])).unwrap();
    validator.add_state(make_state("Mount", None)).unwrap();

    let sequence = Sequence {
        name: "Test".to_string(),
        steps: vec![SequenceStep {
            action_name: "Move".to_string(),
            from: make_state_ref("Mount", "Top"),
            to: make_state_ref("Guard", "Top"),
        }],
    };
    validator.add_sequence(sequence).unwrap();

    let result = validator.validate("test".to_string());
    assert!(result.is_err());
    assert!(result.unwrap_err().message.contains("State 'Guard' is not defined"));
}

#[test]
fn test_sequence_chain_validation() {
    let mut validator = SemanticValidator::new();
    validator.add_roles(make_roles(vec!["Top", "Bottom"])).unwrap();
    validator.add_state(make_state("A", None)).unwrap();
    validator.add_state(make_state("B", None)).unwrap();
    validator.add_state(make_state("C", None)).unwrap();

    // Chain with broken link
    let sequence = Sequence {
        name: "Test".to_string(),
        steps: vec![
            SequenceStep {
                action_name: "Move1".to_string(),
                from: make_state_ref("A", "Top"),
                to: make_state_ref("B", "Top"),
            },
            SequenceStep {
                action_name: "Move2".to_string(),
                from: make_state_ref("C", "Top"), // Should be B[Top]
                to: make_state_ref("A", "Top"),
            },
        ],
    };
    validator.add_sequence(sequence).unwrap();

    let result = validator.validate("test".to_string());
    assert!(result.is_err());
    assert!(result.unwrap_err().message.contains("chain is broken"));
}

#[test]
fn test_valid_system() {
    let mut validator = SemanticValidator::new();
    validator.add_roles(make_roles(vec!["Top", "Bottom"])).unwrap();
    validator.add_state(make_state("Mount", Some(vec!["Top", "Bottom"]))).unwrap();
    validator.add_state(make_state("Guard", Some(vec!["Top", "Bottom"]))).unwrap();

    let sequence = Sequence {
        name: "Escape".to_string(),
        steps: vec![SequenceStep {
            action_name: "Shrimp".to_string(),
            from: make_state_ref("Mount", "Bottom"),
            to: make_state_ref("Guard", "Bottom"),
        }],
    };
    validator.add_sequence(sequence).unwrap();

    let result = validator.validate("BJJ".to_string());
    assert!(result.is_ok());
    let system = result.unwrap();
    assert_eq!(system.name, "BJJ");
    assert_eq!(system.roles.len(), 2);
    assert_eq!(system.states.len(), 2);
    assert_eq!(system.sequences.len(), 1);
}

#[test]
fn test_valid_group() {
    let mut validator = SemanticValidator::new();
    validator.add_roles(make_roles(vec!["Top", "Bottom"])).unwrap();
    validator.add_state(make_state("Mount", None)).unwrap();
    validator.add_state(make_state("SideControl", None)).unwrap();
    validator.add_state(make_state("Guard", None)).unwrap();

    let group = GroupDecl {
        name: "TopPositions".to_string(),
        states: vec!["Mount".to_string(), "SideControl".to_string()],
    };
    validator.add_group(group).unwrap();

    let result = validator.validate("Test".to_string());
    assert!(result.is_ok());
    let system = result.unwrap();
    assert_eq!(system.groups.len(), 1);
    assert!(system.group("TopPositions").is_some());
    assert_eq!(system.group("TopPositions").unwrap().states, vec!["Mount", "SideControl"]);
}

#[test]
fn test_group_with_undefined_state() {
    let mut validator = SemanticValidator::new();
    validator.add_roles(make_roles(vec!["Top"])).unwrap();
    validator.add_state(make_state("Mount", None)).unwrap();

    let group = GroupDecl {
        name: "Bad".to_string(),
        states: vec!["Mount".to_string(), "NonExistent".to_string()],
    };
    validator.add_group(group).unwrap();

    let result = validator.validate("Test".to_string());
    assert!(result.is_err());
    assert!(result.unwrap_err().message.contains("State 'NonExistent' is not defined"));
}

#[test]
fn test_duplicate_group() {
    let mut validator = SemanticValidator::new();

    let group1 = GroupDecl { name: "Guards".to_string(), states: vec!["A".to_string()] };
    let group2 = GroupDecl { name: "Guards".to_string(), states: vec!["B".to_string()] };
    validator.add_group(group1).unwrap();
    let result = validator.add_group(group2);
    assert!(result.is_err());
    assert!(result.unwrap_err().message.contains("already defined"));
}

#[test]
fn a_new_validator_holds_nothing() {
    let validator = SemanticValidator::new();
    assert!(validator.roles().is_empty());
    assert!(validator.states().is_empty());
    assert!(validator.sequences().is_empty());
    assert!(validator.groups().is_empty());
}

#[test]
fn role_merge_gives_the_same_set_in_either_order() {
    let mut first = SemanticValidator::new();
    first.add_roles(make_roles(vec!["A", "B"])).unwrap();
    first.add_roles(make_roles(vec!["B", "C"])).unwrap();
    let mut second = SemanticValidator::new();
    second.add_roles(make_roles(vec!["B", "C"])).unwrap();
    second.add_roles(make_roles(vec!["A", "B"])).unwrap();
    assert_eq!(first.roles(), &strings(vec!["A", "B", "C"]));
    assert_eq!(second.roles(), &strings(vec!["B", "C", "A"]));
    let mut sorted = second.roles().clone();
    sorted.sort();
    assert_eq!(&sorted, first.roles());
}

#[test]
fn role_merge_is_idempotent_and_independent_of_the_split() {
    let mut once = SemanticValidator::new();
    once.add_roles(make_roles(vec!["A", "B", "B", "C", "A"])).unwrap();
    assert_eq!(once.roles(), &strings(vec!["A", "B", "C"]));
    once.add_roles(make_roles(vec!["A", "B", "B", "C", "A"])).unwrap();
    assert_eq!(once.roles(), &strings(vec!["A", "B", "C"]));
    let mut split = SemanticValidator::new();
    split.add_roles(make_roles(vec!["A"])).unwrap();
    split.add_roles(make_roles(vec!["B", "B"])).unwrap();
    split.add_roles(make_roles(vec!["C", "A"])).unwrap();
    assert_eq!(split.roles(), once.roles());
}

#[test]
fn empty_role_name_is_rejected_and_earlier_roles_stay() {
    let mut validator = SemanticValidator::new();
    let e = validator.add_roles(make_roles(vec!["A", "", "B"])).unwrap_err();
    assert_eq!(e, error("Role name cannot be empty", "roles declaration"));
    assert_eq!(validator.roles(), &strings(vec!["A"]));
}

#[test]
fn empty_names_are_rejected() {
    let mut validator = SemanticValidator::new();
    let e = validator.add_state(make_state("", None)).unwrap_err();
    assert_eq!(e, error("State name cannot be empty", "state declaration"));
    let e = validator.add_sequence(make_sequence("", vec![])).unwrap_err();
    assert_eq!(e, error("Sequence name cannot be empty", "sequence declaration"));
    let e = validator.add_group(make_group("", vec!["A"])).unwrap_err();
    assert_eq!(e, error("Group name cannot be empty", "group declaration"));
    assert!(validator.states().is_empty());
    assert!(validator.sequences().is_empty());
    assert!(validator.groups().is_empty());
}

#[test]
fn second_declaration_of_a_name_is_rejected_per_kind() {
    let mut validator = SemanticValidator::new();
    validator.add_state(make_state("X", None)).unwrap();
    validator.add_sequence(make_sequence("X", vec![])).unwrap();
    validator.add_group(make_group("X", vec!["X"])).unwrap();
    validator.add_roles(make_roles(vec!["X"])).unwrap();
    validator.add_state(make_state("Y", None)).unwrap();
    let e = validator.add_state(make_state("X", Some(vec!["X"]))).unwrap_err();
    assert_eq!(e, error("State 'X' is already defined", "state X"));
    let e = validator.add_sequence(make_sequence("X", vec![])).unwrap_err();
    assert_eq!(e, error("Sequence 'X' is already defined", "sequence X"));
    let e = validator.add_group(make_group("X", vec![])).unwrap_err();
    assert_eq!(e, error("Group 'X' is already defined", "group X"));
    assert_eq!(validator.states().len(), 2);
    assert_eq!(validator.states()[0].allowed_roles, None);
    assert_eq!(validator.sequences().len(), 1);
    assert_eq!(validator.groups().len(), 1);
}

#[test]
fn duplicates_are_detected_across_units() {
    let mut validator = SemanticValidator::new();
    let first = MartialFile {
        declarations: vec![
            Declaration::State(make_state("Mount", None)),
            Declaration::Roles(make_roles(vec!["Top"])),
        ],
    };
    let second = MartialFile {
        declarations: vec![
            Declaration::State(make_state("Guard", None)),
            Declaration::Group(make_group("G", vec!["Guard"])),
            Declaration::State(make_state("Mount", None)),
            Declaration::State(make_state("Never", None)),
        ],
    };
    validator.add_file(first).unwrap();
    let e = validator.add_file(second).unwrap_err();
    assert_eq!(e, error("State 'Mount' is already defined", "state Mount"));
    let names: Vec<&str> = validator.states().iter().map(|s| s.name.as_str()).collect();
    assert_eq!(names, vec!["Mount", "Guard"]);
    assert_eq!(validator.groups().len(), 1);
}

#[test]
fn ingest_does_not_check_references() {
    let mut validator = SemanticValidator::new();
    let file = MartialFile {
        declarations: vec![
            Declaration::State(make_state("Mount", Some(vec!["Later"]))),
            Declaration::Sequence(make_sequence(
                "S",
                vec![make_step("go", ("Mount", "Later"), ("Nowhere", "Nobody"))],
            )),
            Declaration::Group(make_group("G", vec!["Unknown"])),
        ],
    };
    validator.add_file(file).unwrap();
}

#[test]
fn a_state_may_use_a_role_declared_in_a_later_unit() {
    let mut validator = SemanticValidator::new();
    validator
        .add_file(MartialFile {
            declarations: vec![Declaration::State(make_state("Clinch", Some(vec!["Striker", "Grappler"])))],
        })
        .unwrap();
    validator
        .add_file(MartialFile { declarations: vec![Declaration::Roles(make_roles(vec!["Striker"]))] })
        .unwrap();
    validator
        .add_file(MartialFile { declarations: vec![Declaration::Roles(make_roles(vec!["Grappler"]))] })
        .unwrap();
    let system = validator.validate("mixed".to_string()).unwrap();
    assert_eq!(system.roles, strings(vec!["Striker", "Grappler"]));
    assert_eq!(system.state("Clinch").unwrap().allowed_roles.as_ref().unwrap().len(), 2);
}

#[test]
fn no_roles_no_system() {
    let validator = SemanticValidator::new();
    let e = validator.validate("empty".to_string()).unwrap_err();
    assert_eq!(e, error("No roles defined. At least one role declaration is required.", "empty"));

    let mut validator = SemanticValidator::new();
    validator.add_state(make_state("A", None)).unwrap();
    validator.add_state(make_state("B", Some(vec!["Ghost"]))).unwrap();
    validator.add_sequence(make_sequence("S", vec![make_step("go", ("A", "r"), ("B", "r"))])).unwrap();
    validator.add_group(make_group("G", vec![])).unwrap();
    let e = validator.validate("busy".to_string()).unwrap_err();
    assert_eq!(e, error("No roles defined. At least one role declaration is required.", "busy"));
}

#[test]
fn undefined_role_in_a_restriction_lists_the_declared_roles() {
    let mut validator = SemanticValidator::new();
    validator.add_roles(make_roles(vec!["Top", "Bottom"])).unwrap();
    validator.add_state(make_state("Fine", Some(vec!["Bottom"]))).unwrap();
    validator.add_state(make_state("Mount", Some(vec!["Top", "Side", "Above"]))).unwrap();
    let e = validator.validate("t".to_string()).unwrap_err();
    assert_eq!(e, error("Role 'Side' is not defined. Available roles: Top, Bottom", "state Mount"));
}

#[test]
fn repeated_role_in_a_restriction_is_rejected() {
    let mut validator = SemanticValidator::new();
    validator.add_roles(make_roles(vec!["Top", "Bottom"])).unwrap();
    validator.add_state(make_state("Mount", Some(vec!["Top", "Bottom", "Top", "Bottom"]))).unwrap();
    let e = validator.validate("t".to_string()).unwrap_err();
    assert_eq!(e, error("Role 'Top' appears multiple times", "state Mount"));
}

#[test]
fn undefined_roles_are_reported_before_repeated_ones() {
    let mut validator = SemanticValidator::new();
    validator.add_roles(make_roles(vec!["Top"])).unwrap();
    validator.add_state(make_state("Mount", Some(vec!["Top", "Top", "Nope"]))).unwrap();
    let e = validator.validate("t".to_string()).unwrap_err();
    assert_eq!(e, error("Role 'Nope' is not defined. Available roles: Top", "state Mount"));
}

#[test]
fn the_first_state_with_a_defect_is_reported() {
    let mut validator = SemanticValidator::new();
    validator.add_roles(make_roles(vec!["Top"])).unwrap();
    validator.add_state(make_state("Zeta", Some(vec!["Z"]))).unwrap();
    validator.add_state(make_state("Alpha", Some(vec!["A"]))).unwrap();
    let e = validator.validate("t".to_string()).unwrap_err();
    assert_eq!(e.context, "state Zeta");
}

#[test]
fn states_are_checked_before_sequences_and_sequences_before_groups() {
    let mut validator = SemanticValidator::new();
    validator.add_roles(make_roles(vec!["Top"])).unwrap();
    validator.add_group(make_group("G", vec!["Missing"])).unwrap();
    validator.add_sequence(make_sequence("S", vec![make_step("go", ("Missing", "Top"), ("A", "Top"))])).unwrap();
    validator.add_state(make_state("A", Some(vec!["Ghost"]))).unwrap();
    let e = validator.validate("t".to_string()).unwrap_err();
    assert_eq!(e.context, "state A");

    let mut validator = SemanticValidator::new();
    validator.add_roles(make_roles(vec!["Top"])).unwrap();
    validator.add_group(make_group("G", vec!["Missing"])).unwrap();
    validator.add_sequence(make_sequence("S", vec![make_step("go", ("Missing", "Top"), ("A", "Top"))])).unwrap();
    validator.add_state(make_state("A", None)).unwrap();
    let e = validator.validate("t".to_string()).unwrap_err();
    assert_eq!(e.context, "sequence S step 1 (go)");

    let mut validator = SemanticValidator::new();
    validator.add_roles(make_roles(vec!["Top"])).unwrap();
    validator.add_group(make_group("G", vec!["Missing"])).unwrap();
    validator.add_state(make_state("A", None)).unwrap();
    let e = validator.validate("t".to_string()).unwrap_err();
    assert_eq!(e, error("State 'Missing' is not defined. Available states: A", "group G"));
}

#[test]
fn a_sequence_without_steps_is_rejected() {
    let mut validator = SemanticValidator::new();
    validator.add_roles(make_roles(vec!["Top"])).unwrap();
    validator.add_sequence(make_sequence("Idle", vec![])).unwrap();
    let e = validator.validate("t".to_string()).unwrap_err();
    assert_eq!(e, error("Sequence must have at least one step", "sequence Idle"));
}

#[test]
fn a_group_without_states_is_rejected() {
    let mut validator = SemanticValidator::new();
    validator.add_roles(make_roles(vec!["Top"])).unwrap();
    validator.add_group(make_group("Hollow", vec![])).unwrap();
    let e = validator.validate("t".to_string()).unwrap_err();
    assert_eq!(e, error("Group must contain at least one state", "group Hollow"));
}

#[test]
fn undefined_state_in_a_step_lists_the_declared_states() {
    let mut validator = SemanticValidator::new();
    validator.add_roles(make_roles(vec!["Top", "Bottom"])).unwrap();
    validator.add_state(make_state("Mount", Some(vec!["Top", "Bottom"]))).unwrap();
    validator.add_state(make_state("Back", None)).unwrap();
    validator
        .add_sequence(make_sequence("Escape", vec![make_step("Shrimp", ("Mount", "Bottom"), ("Guard", "Bottom"))]))
        .unwrap();
    let e = validator.validate("BJJ".to_string()).unwrap_err();
    assert_eq!(
        e,
        error("State 'Guard' is not defined. Available states: Mount, Back", "sequence Escape step 1 (Shrimp)")
    );
}

#[test]
fn undefined_role_in_a_step_is_reported() {
    let mut validator = SemanticValidator::new();
    validator.add_roles(make_roles(vec!["Top"])).unwrap();
    validator.add_state(make_state("A", None)).unwrap();
    validator.add_sequence(make_sequence("S", vec![make_step("go", ("A", "Top"), ("A", "Side"))])).unwrap();
    let e = validator.validate("t".to_string()).unwrap_err();
    assert_eq!(e, error("Role 'Side' is not defined. Available roles: Top", "sequence S step 1 (go)"));
}

#[test]
fn open_state_accepts_any_declared_role() {
    let mut validator = SemanticValidator::new();
    validator.add_roles(make_roles(vec!["Top", "Bottom", "Neutral"])).unwrap();
    validator.add_state(make_state("Standing", None)).unwrap();
    validator
        .add_sequence(make_sequence(
            "Circle",
            vec![
                make_step("a", ("Standing", "Top"), ("Standing", "Bottom")),
                make_step("b", ("Standing", "Bottom"), ("Standing", "Neutral")),
                make_step("c", ("Standing", "Neutral"), ("Standing", "Top")),
            ],
        ))
        .unwrap();
    assert!(validator.validate("t".to_string()).is_ok());
}

#[test]
fn closed_state_rejects_a_declared_role_that_is_not_listed() {
    let mut validator = SemanticValidator::new();
    validator.add_roles(make_roles(vec!["Top", "Bottom", "Neutral"])).unwrap();
    validator.add_state(make_state("Mount", Some(vec!["Top", "Bottom"]))).unwrap();
    validator
        .add_sequence(make_sequence("S", vec![make_step("sit", ("Mount", "Top"), ("Mount", "Neutral"))]))
        .unwrap();
    let e = validator.validate("t".to_string()).unwrap_err();
    assert_eq!(
        e,
        error(
            "Role 'Neutral' is not allowed for state 'Mount'. Allowed roles: Top, Bottom",
            "sequence S step 1 (sit)"
        )
    );
}

#[test]
fn continuous_chain_validates() {
    let mut validator = SemanticValidator::new();
    validator.add_roles(make_roles(vec!["r1", "r2", "r3"])).unwrap();
    validator.add_state(make_state("A", None)).unwrap();
    validator.add_state(make_state("B", None)).unwrap();
    validator.add_state(make_state("C", None)).unwrap();
    validator
        .add_sequence(make_sequence(
            "S",
            vec![make_step("x", ("A", "r1"), ("B", "r2")), make_step("y", ("B", "r2"), ("C", "r3"))],
        ))
        .unwrap();
    let system = validator.validate("t".to_string()).unwrap();
    assert_eq!(system.sequence("S").unwrap().steps.len(), 2);
}

#[test]
fn broken_chain_names_both_endpoints() {
    let mut validator = SemanticValidator::new();
    validator.add_roles(make_roles(vec!["r1", "r2"])).unwrap();
    for name in ["A", "B", "C", "D"] {
        validator.add_state(make_state(name, None)).unwrap();
    }
    validator
        .add_sequence(make_sequence(
            "S",
            vec![make_step("x", ("A", "r1"), ("B", "r2")), make_step("y", ("C", "r1"), ("D", "r2"))],
        ))
        .unwrap();
    let e = validator.validate("t".to_string()).unwrap_err();
    assert_eq!(
        e,
        error(
            "Step chain is broken: previous step ends at B[r2], but this step starts at C[r1]",
            "sequence S step 2 (y)"
        )
    );
}

#[test]
fn a_chain_breaks_on_the_role_alone() {
    let mut validator = SemanticValidator::new();
    validator.add_roles(make_roles(vec!["r1", "r2"])).unwrap();
    validator.add_state(make_state("A", None)).unwrap();
    validator
        .add_sequence(make_sequence(
            "S",
            vec![make_step("x", ("A", "r1"), ("A", "r2")), make_step("y", ("A", "r1"), ("A", "r2"))],
        ))
        .unwrap();
    let e = validator.validate("t".to_string()).unwrap_err();
    assert!(e.message.contains("ends at A[r2], but this step starts at A[r1]"));
}

#[test]
fn endpoints_of_a_step_are_checked_before_its_link() {
    let mut validator = SemanticValidator::new();
    validator.add_roles(make_roles(vec!["r"])).unwrap();
    validator.add_state(make_state("A", None)).unwrap();
    validator
        .add_sequence(make_sequence(
            "S",
            vec![make_step("x", ("A", "r"), ("A", "r")), make_step("y", ("B", "r"), ("C", "r"))],
        ))
        .unwrap();
    let e = validator.validate("t".to_string()).unwrap_err();
    assert_eq!(e, error("State 'B' is not defined. Available states: A", "sequence S step 2 (y)"));
}

#[test]
fn step_numbers_are_written_in_decimal() {
    let mut validator = SemanticValidator::new();
    validator.add_roles(make_roles(vec!["r"])).unwrap();
    validator.add_state(make_state("A", None)).unwrap();
    let mut steps: Vec<SequenceStep> = (0..11).map(|_| make_step("ok", ("A", "r"), ("A", "r"))).collect();
    steps.push(make_step("bad", ("A", "r"), ("A", "q")));
    validator.add_sequence(make_sequence("Long", steps)).unwrap();
    let e = validator.validate("t".to_string()).unwrap_err();
    assert_eq!(e.context, "sequence Long step 12 (bad)");
}

#[test]
fn a_validated_system_keeps_declarations_in_order() {
    let mut validator = SemanticValidator::new();
    validator.add_roles(make_roles(vec!["Top", "Bottom"])).unwrap();
    validator.add_state(make_state("Mount", Some(vec!["Top", "Bottom"]))).unwrap();
    validator.add_state(make_state("Guard", None)).unwrap();
    validator.add_sequence(make_sequence("Z", vec![make_step("a", ("Mount", "Top"), ("Guard", "Top"))])).unwrap();
    validator.add_sequence(make_sequence("A", vec![make_step("b", ("Guard", "Top"), ("Mount", "Top"))])).unwrap();
    validator.add_group(make_group("All", vec!["Guard", "Mount", "Guard"])).unwrap();
    let system = validator.validate("BJJ".to_string()).unwrap();
    assert_eq!(system.name, "BJJ");
    assert_eq!(system.roles, strings(vec!["Top", "Bottom"]));
    assert_eq!(system.states, vec![make_state("Mount", Some(vec!["Top", "Bottom"])), make_state("Guard", None)]);
    assert_eq!(system.sequences[0].name, "Z");
    assert_eq!(system.sequences[1].name, "A");
    assert_eq!(system.groups, vec![make_group("All", vec!["Guard", "Mount", "Guard"])]);
    assert!(system.has_role("Top"));
    assert!(!system.has_role("top"));
    assert_eq!(system.state("Guard"), Some(&make_state("Guard", None)));
    assert!(system.state("guard").is_none());
    assert_eq!(system.sequence("A").unwrap().steps[0].action_name, "b");
    assert!(system.sequence("B").is_none());
    assert!(system.group("all").is_none());
}

#[test]
fn lookups_find_the_first_of_a_name() {
    let states = vec![make_state("A", None), make_state("B", None), make_state("A", Some(vec!["x"]))];
    assert_eq!(find_state(&states, "A"), Some(0));
    assert_eq!(find_state(&states, "B"), Some(1));
    assert_eq!(find_state(&states, "C"), None);
    let sequences = vec![make_sequence("S", vec![]), make_sequence("T", vec![])];
    assert_eq!(find_sequence(&sequences, "T"), Some(1));
    assert_eq!(find_sequence(&sequences, ""), None);
    let groups = vec![make_group("G", vec![])];
    assert_eq!(find_group(&groups, "G"), Some(0));
    assert_eq!(find_group(&groups, "g"), None);
}

#[test]
fn state_refs_are_equal_by_state_and_role() {
    assert!(same_state_ref(&make_state_ref("A", "r"), &make_state_ref("A", "r")));
    assert!(!same_state_ref(&make_state_ref("A", "r"), &make_state_ref("A", "q")));
    assert!(!same_state_ref(&make_state_ref("A", "r"), &make_state_ref("B", "r")));
}

#[test]
fn semantic_errors_are_written_for_the_user() {
    let e = error("State 'X' is already defined", "state X");
    assert_eq!(e.to_string(), "Semantic error in state X: State 'X' is already defined");
    assert_eq!(e.clone(), e);
}

#[test]
fn an_endpoint_is_checked_against_states_and_roles() {
    let mut validator = SemanticValidator::new();
    validator.add_roles(make_roles(vec!["Top", "Bottom", "Neutral"])).unwrap();
    validator.add_state(make_state("Mount", Some(vec!["Top", "Bottom"]))).unwrap();
    validator.add_state(make_state("Standing", None)).unwrap();
    assert_eq!(validator.validate_state_ref(&make_state_ref("Mount", "Top"), "here"), Ok(()));
    assert_eq!(validator.validate_state_ref(&make_state_ref("Standing", "Neutral"), "here"), Ok(()));
    assert_eq!(
        validator.validate_state_ref(&make_state_ref("Mount", "Neutral"), "here"),
        Err(error("Role 'Neutral' is not allowed for state 'Mount'. Allowed roles: Top, Bottom", "here"))
    );
    assert_eq!(
        validator.validate_state_ref(&make_state_ref("Guard", "Top"), "there"),
        Err(error("State 'Guard' is not defined. Available states: Mount, Standing", "there"))
    );
    assert_eq!(
        validator.validate_state_ref(&make_state_ref("Standing", "Side"), ""),
        Err(error("Role 'Side' is not defined. Available roles: Top, Bottom, Neutral", ""))
    );
    assert_eq!(
        validator.validate_state_ref(&make_state_ref("Guard", "Side"), "x"),
        Err(error("State 'Guard' is not defined. Available states: Mount, Standing", "x"))
    );
    assert_eq!(validator.states().len(), 2);
}

#[test]
fn each_kind_is_checked_on_its_own() {
    let mut validator = SemanticValidator::new();
    validator.add_roles(make_roles(vec!["Top"])).unwrap();
    validator.add_state(make_state("A", Some(vec!["Ghost"]))).unwrap();
    validator.add_sequence(make_sequence("S", vec![make_step("go", ("B", "Top"), ("A", "Top"))])).unwrap();
    validator.add_group(make_group("G", vec!["A"])).unwrap();
    assert_eq!(
        validator.validate_states(),
        Err(error("Role 'Ghost' is not defined. Available roles: Top", "state A"))
    );
    assert_eq!(
        validator.validate_sequences(),
        Err(error("State 'B' is not defined. Available states: A", "sequence S step 1 (go)"))
    );
    assert_eq!(validator.validate_groups(), Ok(()));
    assert_eq!(validator.validate_state(&make_state("X", Some(vec!["Top"]))), Ok(()));
    assert_eq!(
        validator.validate_state(&make_state("X", Some(vec!["Top", "Top"]))),
        Err(error("Role 'Top' appears multiple times", "state X"))
    );
    assert_eq!(
        validator.validate_sequence(&make_sequence("Q", vec![])),
        Err(error("Sequence must have at least one step", "sequence Q"))
    );
    assert_eq!(
        validator.validate_sequence(&make_sequence("Q", vec![make_step("no", ("A", "Top"), ("A", "Top"))])),
        Err(error("Role 'Top' is not allowed for state 'A'. Allowed roles: Ghost", "sequence Q step 1 (no)"))
    );
    validator.add_state(make_state("Open", None)).unwrap();
    assert_eq!(
        validator.validate_sequence(&make_sequence("Q", vec![make_step("ok", ("Open", "Top"), ("Open", "Top"))])),
        Ok(())
    );
    assert_eq!(
        validator.validate_group(&make_group("H", vec!["A", "Z"])),
        Err(error("State 'Z' is not defined. Available states: A, Open", "group H"))
    );
}
