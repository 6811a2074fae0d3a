use martial_lang::ast::{
    Declaration, GroupDecl, MartialFile, RolesDecl, Sequence, SequenceStep, State, StateRef,
};
use martial_lang::compile::{parse_source, parse_tokens};
use martial_lang::lexer::{LexError, Lexer, Position, PositionedToken, Token};
use martial_lang::parser::{ParseError, Parser};

fn parse_input(input: &str) -> Result<MartialFile, ParseError> {
    parse_source(input)
}

fn names(list: &[&str]) -> Vec<String> {
    list.iter().map(|s| s.to_string()).collect()
}

fn state_ref(state: &str, role: &str) -> StateRef {
    StateRef { state: state.to_string(), role: role.to_string() }
}

fn step(action: &str, from: StateRef, to: StateRef) -> SequenceStep {
    SequenceStep { action_name: action.to_string(), from, to }
}

fn at(token: Token, line: usize, column: usize) -> PositionedToken {
    PositionedToken { token, position: Position { line, column } }
}

#[test]
fn test_parse_roles() {
    let input = "roles { Top, Bottom, Neutral }";
    let result = parse_input(input).unwrap();

    assert_eq!(result.declarations.len(), 1);
    match &result.declarations[0] {
        Declaration::Roles(roles_decl) => {
            assert_eq!(roles_decl.roles.len(), 3);
            assert_eq!(roles_decl.roles[0], "Top");
            assert_eq!(roles_decl.roles[1], "Bottom");
            assert_eq!(roles_decl.roles[2], "Neutral");
        }
        _ => panic!("Expected Roles declaration"),
    }
}

#[test]
fn test_parse_state_simple() {
    let input = "state Standing";
    let result = parse_input(input).unwrap();

    assert_eq!(result.declarations.len(), 1);
    match &result.declarations[0] {
        Declaration::State(state) => {
            assert_eq!(state.name, "Standing");
            assert_eq!(state.allowed_roles, None);
        }
        _ => panic!("Expected State declaration"),
    }
}

#[test]
fn test_parse_state_with_roles() {
    let input = "state Mount roles { Top, Bottom }";
    let result = parse_input(input).unwrap();

    assert_eq!(result.declarations.len(), 1);
    match &result.declarations[0] {
        Declaration::State(state) => {
            assert_eq!(state.name, "Mount");
            assert_eq!(state.allowed_roles, Some(vec!["Top".to_string(), "Bottom".to_string()]));
        }
        _ => panic!("Expected State declaration"),
    }
}

#[test]
fn test_parse_sequence() {
    let input = r#"
sequence TestSequence:
    Action1: State1[Role1] -> State2[Role2]
    Action2: State2[Role2] -> State3[Role3]
"#;
    let result = parse_input(input).unwrap();

    assert_eq!(result.declarations.len(), 1);
    match &result.declarations[0] {
        Declaration::Sequence(seq) => {
            assert_eq!(seq.name, "TestSequence");
            assert_eq!(seq.steps.len(), 2);

            assert_eq!(seq.steps[0].action_name, "Action1");
            assert_eq!(seq.steps[0].from.state, "State1");
            assert_eq!(seq.steps[0].from.role, "Role1");
            assert_eq!(seq.steps[0].to.state, "State2");
            assert_eq!(seq.steps[0].to.role, "Role2");

            assert_eq!(seq.steps[1].action_name, "Action2");
            assert_eq!(seq.steps[1].from.state, "State2");
            assert_eq!(seq.steps[1].from.role, "Role2");
            assert_eq!(seq.steps[1].to.state, "State3");
            assert_eq!(seq.steps[1].to.role, "Role3");
        }
        _ => panic!("Expected Sequence declaration"),
    }
}

#[test]
fn test_parse_multiple_declarations() {
    let input = r#"
roles { Top, Bottom }

state Mount roles { Top, Bottom }
state Standing

sequence MountEntry:
    Setup: Standing[Neutral] -> Mount[Top]
"#;
    let result = parse_input(input).unwrap();

    assert_eq!(result.declarations.len(), 4);
    assert!(matches!(result.declarations[0], Declaration::Roles(_)));
    assert!(matches!(result.declarations[1], Declaration::State(_)));
    assert!(matches!(result.declarations[2], Declaration::State(_)));
    assert!(matches!(result.declarations[3], Declaration::Sequence(_)));
}

#[test]
fn test_parse_real_bjj_example() {
    let input = r#"
// BJJ example
roles {
    Top, Bottom, Neutral
}

state Standing
state Mount roles { Top, Bottom }

sequence GuardPass:
    Stack: ClosedGuard[Top] -> HalfGuard[Top]
    Pass: HalfGuard[Top] -> SideControl[Top]
"#;
    let result = parse_input(input).unwrap();
    assert_eq!(result.declarations.len(), 4);
}

#[test]
fn round_trip_of_a_roles_declaration() {
    let file = parse_input("roles { Top, Bottom, Neutral }").unwrap();
    assert_eq!(
        file,
        MartialFile {
            declarations: vec![Declaration::Roles(RolesDecl {
                roles: names(&["Top", "Bottom", "Neutral"])
            })]
        }
    );
}

#[test]
fn empty_unit_has_no_declarations() {
    assert_eq!(parse_input("").unwrap(), MartialFile { declarations: vec![] });
    assert_eq!(parse_input("  // nothing\n").unwrap(), MartialFile { declarations: vec![] });
}

#[test]
fn group_declaration_is_parsed() {
    let file = parse_input("group GuardFamily { ClosedGuard, OpenGuard }").unwrap();
    assert_eq!(
        file.declarations,
        vec![Declaration::Group(GroupDecl {
            name: "GuardFamily".to_string(),
            states: names(&["ClosedGuard", "OpenGuard"]),
        })]
    );
}

#[test]
fn every_kind_of_declaration_in_one_unit() {
    let file = parse_input(
        "state A group G { A } roles { R } sequence S: go: A[R] -> A[R] state B roles { R }",
    )
    .unwrap();
    assert_eq!(
        file.declarations,
        vec![
            Declaration::State(State { name: "A".to_string(), allowed_roles: None }),
            Declaration::Group(GroupDecl { name: "G".to_string(), states: names(&["A"]) }),
            Declaration::Roles(RolesDecl { roles: names(&["R"]) }),
            Declaration::Sequence(Sequence {
                name: "S".to_string(),
                steps: vec![step("go", state_ref("A", "R"), state_ref("A", "R"))],
            }),
            Declaration::State(State { name: "B".to_string(), allowed_roles: Some(names(&["R"])) }),
        ]
    );
}

#[test]
fn a_sequence_stops_taking_steps_at_the_next_keyword() {
    let file = parse_input(
        "sequence First:\n  a: A[r] -> B[r]\n  b: B[r] -> C[r]\nsequence Second:\n  c: C[r] -> A[r]\n",
    )
    .unwrap();
    assert_eq!(file.declarations.len(), 2);
    match (&file.declarations[0], &file.declarations[1]) {
        (Declaration::Sequence(first), Declaration::Sequence(second)) => {
            assert_eq!(first.name, "First");
            assert_eq!(first.steps.len(), 2);
            assert_eq!(second.name, "Second");
            assert_eq!(second.steps.len(), 1);
        }
        _ => panic!("two sequences are expected"),
    }
}

#[test]
fn a_sequence_takes_every_step_that_starts_with_an_identifier() {
    let e = parse_input("sequence S: a: A[r] -> B[r] Stray state X").unwrap_err();
    assert_eq!(e.message, "Expected :, got state");
    assert_eq!(e.position, Position { line: 1, column: 35 });
}

#[test]
fn a_sequence_needs_a_step() {
    let e = parse_input("sequence Empty:\nstate A").unwrap_err();
    assert_eq!(e.message, "Expected identifier, got state");
    assert_eq!(e.position, Position { line: 2, column: 1 });
    let e = parse_input("sequence Empty:").unwrap_err();
    assert_eq!(e.message, "Expected identifier, got EOF");
}

#[test]
fn a_name_list_is_not_empty_and_has_no_trailing_comma() {
    let e = parse_input("roles { }").unwrap_err();
    assert_eq!(e.message, "Expected identifier, got }");
    assert_eq!(e.position, Position { line: 1, column: 9 });
    let e = parse_input("roles { A, }").unwrap_err();
    assert_eq!(e.message, "Expected identifier, got }");
    let e = parse_input("group G { A B }").unwrap_err();
    assert_eq!(e.message, "Expected }, got B");
    assert_eq!(e.position, Position { line: 1, column: 13 });
}

#[test]
fn mismatches_say_what_was_expected_and_what_was_found() {
    let e = parse_input("roles Top").unwrap_err();
    assert_eq!(e.message, "Expected {, got Top");
    assert_eq!(e.position, Position { line: 1, column: 7 });
    let e = parse_input("state roles").unwrap_err();
    assert_eq!(e.message, "Expected identifier, got roles");
    let e = parse_input("sequence S a: A[r] -> B[r]").unwrap_err();
    assert_eq!(e.message, "Expected :, got a");
    let e = parse_input("sequence S: a: A(r) -> B[r]").unwrap_err();
    assert!(e.message.starts_with("Unexpected character"));
    let e = parse_input("sequence S: a: A[r] B[r]").unwrap_err();
    assert_eq!(e.message, "Expected ->, got B");
    let e = parse_input("sequence S: a: A[r] -> B[r").unwrap_err();
    assert_eq!(e.message, "Expected ], got EOF");
    let e = parse_input("sequence S: a: A[r] -> B r]").unwrap_err();
    assert_eq!(e.message, "Expected [, got r");
    let e = parse_input("group { A }").unwrap_err();
    assert_eq!(e.message, "Expected identifier, got {");
}

#[test]
fn a_unit_starts_each_declaration_with_a_keyword() {
    let e = parse_input("Mount").unwrap_err();
    assert_eq!(e.message, "Expected declaration (roles, state, sequence, or group), got Mount");
    assert_eq!(e.position, Position { line: 1, column: 1 });
    let e = parse_input("state A\n}").unwrap_err();
    assert_eq!(e.message, "Expected declaration (roles, state, sequence, or group), got }");
    assert_eq!(e.position, Position { line: 2, column: 1 });
}

#[test]
fn an_error_at_the_end_carries_the_position_of_the_end() {
    let e = parse_input("state Mount roles {\n  Top").unwrap_err();
    assert_eq!(e.message, "Expected }, got EOF");
    assert_eq!(e.position, Position { line: 2, column: 6 });
}

#[test]
fn parsing_is_fail_fast() {
    let e = parse_input("state\nstate %\nroles {").unwrap_err();
    assert_eq!(e.message, "Unexpected character: '%'");
    let e = parse_input("state\nstate\nroles {").unwrap_err();
    assert_eq!(e.message, "Expected identifier, got state");
    assert_eq!(e.position, Position { line: 2, column: 1 });
}

#[test]
fn lexical_errors_pass_through_unchanged() {
    let mut lexer = Lexer::new("state $");
    let lexical = lexer.tokenize().unwrap_err();
    let e = parse_input("state $").unwrap_err();
    assert_eq!(e.message, lexical.message);
    assert_eq!(e.position, lexical.position);
    assert_eq!(e.message, "Unexpected character: '$'");
    assert_eq!(e.position, Position { line: 1, column: 7 });
}

#[test]
fn a_lexical_error_becomes_a_syntax_error() {
    let lexical = LexError { message: "m".to_string(), position: Position { line: 4, column: 2 } };
    let e = ParseError::from(lexical);
    assert_eq!(e, ParseError { message: "m".to_string(), position: Position { line: 4, column: 2 } });
    assert_eq!(e.to_string(), "Parse error at line 4, column 2: m");
    assert_eq!(e.clone(), e);
}

#[test]
fn tokens_without_eof_end_where_they_end() {
    let tokens = vec![at(Token::State, 1, 1), at(Token::Identifier("A".to_string()), 1, 7)];
    let file = parse_tokens(tokens).unwrap();
    assert_eq!(
        file.declarations,
        vec![Declaration::State(State { name: "A".to_string(), allowed_roles: None })]
    );
    let e = parse_tokens(vec![at(Token::State, 3, 4)]).unwrap_err();
    assert_eq!(e.message, "Expected identifier, got EOF");
    assert_eq!(e.position, Position { line: 3, column: 4 });
}

#[test]
fn no_tokens_at_all_is_an_empty_unit() {
    assert_eq!(parse_tokens(vec![]).unwrap(), MartialFile { declarations: vec![] });
}

#[test]
fn parsing_stops_at_the_first_eof() {
    let tokens = vec![
        at(Token::State, 1, 1),
        at(Token::Identifier("A".to_string()), 1, 7),
        at(Token::Eof, 1, 8),
        at(Token::State, 2, 1),
    ];
    let mut parser = Parser::new(tokens);
    let file = parser.parse().unwrap();
    assert_eq!(file.declarations.len(), 1);
    let again = parser.parse().unwrap();
    assert_eq!(again.declarations.len(), 0);
}

#[test]
fn syntax_trees_can_be_cloned() {
    let file = parse_input(
        "roles { R } state A roles { R } group G { A } sequence S: go: A[R] -> A[R]",
    )
    .unwrap();
    assert_eq!(file.clone(), file);
}

#[test]
fn a_state_without_roles_takes_a_following_roles_declaration() {
    let file = parse_input("state Standing\nroles { Top, Bottom }").unwrap();
    assert_eq!(
        file.declarations,
        vec![Declaration::State(State {
            name: "Standing".to_string(),
            allowed_roles: Some(names(&["Top", "Bottom"])),
        })]
    );
    let file = parse_input("roles { Top, Bottom }\nstate Standing").unwrap();
    assert_eq!(file.declarations.len(), 2);
}
