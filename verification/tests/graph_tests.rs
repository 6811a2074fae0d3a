use martial_lang::ast::{Sequence, SequenceStep, State, StateRef};
use martial_lang::compile::compile_system;
use martial_lang::graph::{contains_node, Edge, MartialGraph, Node};
use martial_lang::semantic::MartialSystem;

fn make_test_system() -> MartialSystem {
    let roles = vec!["Top".to_string(), "Bottom".to_string()];

    let states = vec![
        State { name: "Mount".to_string(), allowed_roles: None },
        State { name: "Guard".to_string(), allowed_roles: None },
    ];

    let sequences = vec![Sequence {
        name: "Escape".to_string(),
        steps: vec![SequenceStep {
            action_name: "Shrimp".to_string(),
            from: StateRef { state: "Mount".to_string(), role: "Bottom".to_string() },
            to: StateRef { state: "Guard".to_string(), role: "Bottom".to_string() },
        }],
    }];

    MartialSystem { name: "BJJ".to_string(), roles, states, sequences, groups: vec![] }
}

fn node(state: &str, role: &str) -> Node {
    Node::new(state.to_string(), role.to_string())
}

fn edge(from: (&str, &str), to: (&str, &str), action: &str, sequence: &str) -> Edge {
    Edge {
        from: node(from.0, from.1),
        to: node(to.0, to.1),
        action: action.to_string(),
        sequence: sequence.to_string(),
    }
}

fn graph(nodes: Vec<Node>, edges: Vec<Edge>) -> MartialGraph {
    MartialGraph { system_name: "g".to_string(), nodes, edges }
}

fn sorted(mut nodes: Vec<Node>) -> Vec<Node> {
    nodes.sort_by(|a, b| (a.state.as_str(), a.role.as_str()).cmp(&(b.state.as_str(), b.role.as_str())));
    nodes
}

fn boxing_sources() -> Vec<String> {
    vec![
        "roles { Orthodox, Southpaw }\n\nstate LongRange\nstate MidRange\nstate InsideRange\n".to_string(),
        "// Classic combinations\nsequence JabCross:\n    Jab: LongRange[Orthodox] -> MidRange[Orthodox]\n    Cross: MidRange[Orthodox] -> MidRange[Orthodox]\n\nsequence JabCrossHook:\n    Jab: LongRange[Orthodox] -> MidRange[Orthodox]\n    Cross: MidRange[Orthodox] -> MidRange[Orthodox]\n    LeadHook: MidRange[Orthodox] -> InsideRange[Orthodox]\n\nsequence BodyToHeadCombo:\n    BodyJab: MidRange[Southpaw] -> InsideRange[Southpaw]\n    HeadCross: InsideRange[Southpaw] -> MidRange[Southpaw]\n".to_string(),
    ]
}

fn wrestling_sources() -> Vec<String> {
    vec![
        "roles { Offensive, Defensive, Neutral }\n".to_string(),
        "state NeutralStance\nstate CollarTie\nstate DoubleUnderhooks\nstate SingleLeg\nstate DoubleLeg\nstate FrontHeadlock\nstate BackControl\nstate TopRide\n".to_string(),
        "sequence CollarTieSnapdown:\n    InitialContact: NeutralStance[Neutral] -> CollarTie[Offensive]\n    SnapDown: CollarTie[Offensive] -> FrontHeadlock[Offensive]\n\nsequence FrontHeadlockSeries:\n    GoBehind: FrontHeadlock[Offensive] -> BackControl[Offensive]\n    BreakDown: BackControl[Offensive] -> TopRide[Offensive]\n\nsequence SingleLegTakedown:\n    ShootIn: NeutralStance[Neutral] -> SingleLeg[Offensive]\n    RunThePipe: SingleLeg[Offensive] -> SingleLeg[Offensive]\n    LiftAndDump: SingleLeg[Offensive] -> TopRide[Offensive]\n\nsequence DoubleLegBlast:\n    LevelChange: NeutralStance[Neutral] -> DoubleLeg[Offensive]\n    DriveThrough: DoubleLeg[Offensive] -> TopRide[Offensive]\n\nsequence DoubleUnderhookSeries:\n    Pummel: CollarTie[Offensive] -> DoubleUnderhooks[Offensive]\n    BodyLock: DoubleUnderhooks[Offensive] -> BackControl[Offensive]\n\nsequence DuckUnderBackTake:\n    DuckUnder: CollarTie[Defensive] -> BackControl[Offensive]\n".to_string(),
    ]
}

#[test]
fn test_graph_creation() {
    let system = make_test_system();
    let graph = MartialGraph::from_system(&system);

    assert_eq!(graph.nodes.len(), 2);
    assert_eq!(graph.edges.len(), 1);
    assert_eq!(graph.system_name, "BJJ");
}

#[test]
fn test_reachability() {
    let system = make_test_system();
    let graph = MartialGraph::from_system(&system);

    let start = Node::new("Mount".to_string(), "Bottom".to_string());
    let reachable = graph.reachable_from(&start);

    assert_eq!(reachable.len(), 2); // Mount[Bottom] and Guard[Bottom]
    assert!(reachable.contains(&Node::new("Guard".to_string(), "Bottom".to_string())));
}

#[test]
fn test_statistics() {
    let system = make_test_system();
    let graph = MartialGraph::from_system(&system);
    let stats = graph.statistics();

    assert_eq!(stats.node_count, 2);
    assert_eq!(stats.edge_count, 1);
    assert_eq!(stats.self_loops, 0);
    assert_eq!(stats.source_nodes.len(), 1);
    assert_eq!(stats.sink_nodes.len(), 1);
}

#[test]
fn test_dot_export() {
    let system = make_test_system();
    let graph = MartialGraph::from_system(&system);
    let dot = graph.to_dot();

    assert!(dot.contains("digraph \"BJJ\""));
    assert!(dot.contains("Mount[Bottom]"));
    assert!(dot.contains("Guard[Bottom]"));
    assert!(dot.contains("Shrimp"));
}

#[test]
fn test_graph_generation() {
    let result = compile_system("valid_simple".to_string(), &boxing_sources());
    assert!(result.is_ok());
    let system = result.unwrap();

    // Test graph generation
    let graph = MartialGraph::from_system(&system);

    // Verify graph has nodes
    let stats = graph.statistics();
    assert!(stats.node_count > 0, "Graph should have nodes");
    assert!(stats.edge_count > 0, "Graph should have edges");

    // Test DOT export
    let dot = graph.to_dot();
    assert!(dot.contains("digraph"), "DOT output should contain digraph declaration");
    assert!(dot.contains("->"), "DOT output should contain edges");
}

#[test]
fn test_graph_statistics() {
    let result = compile_system("valid_complex".to_string(), &wrestling_sources());
    assert!(result.is_ok());
    let system = result.unwrap();

    let graph = MartialGraph::from_system(&system);
    let stats = graph.statistics();

    // Wrestling system should have source nodes (starting positions)
    assert!(!stats.source_nodes.is_empty(), "Wrestling system should have source nodes");

    // Check for unreachable nodes
    let unreachable = graph.find_unreachable_nodes();
    // This is informational - some systems may have unreachable nodes by design
    println!("Unreachable nodes in valid_complex: {}", unreachable.len());
}

#[test]
fn figures_of_the_wrestling_system() {
    let system = compile_system("valid_complex".to_string(), &wrestling_sources()).unwrap();
    assert_eq!(system.roles.len(), 3);
    assert_eq!(system.states.len(), 8);
    assert_eq!(system.sequences.len(), 6);
    assert_eq!(system.sequence("SingleLegTakedown").unwrap().steps.len(), 3);
    let snapdown = system.sequence("CollarTieSnapdown").unwrap();
    assert_eq!(snapdown.steps[0].to.state, snapdown.steps[1].from.state);
    let graph = MartialGraph::from_system(&system);
    let stats = graph.statistics();
    assert_eq!(stats.node_count, 9);
    assert_eq!(stats.edge_count, 12);
    assert_eq!(stats.self_loops, 1);
    assert_eq!(stats.source_nodes, vec![node("CollarTie", "Defensive"), node("NeutralStance", "Neutral")]);
    assert_eq!(stats.sink_nodes, vec![node("TopRide", "Offensive")]);
    assert!(stats.isolated_nodes.is_empty());
    assert!(graph.find_unreachable_nodes().is_empty());
}

#[test]
fn end_to_end_graph_of_a_small_system() {
    let system = make_test_system();
    let graph = MartialGraph::from_system(&system);
    assert_eq!(graph.nodes, vec![node("Guard", "Bottom"), node("Mount", "Bottom")]);
    assert_eq!(graph.edges, vec![edge(("Mount", "Bottom"), ("Guard", "Bottom"), "Shrimp", "Escape")]);
    let stats = graph.statistics();
    assert_eq!(stats.source_nodes, vec![node("Mount", "Bottom")]);
    assert_eq!(stats.sink_nodes, vec![node("Guard", "Bottom")]);
    assert!(stats.isolated_nodes.is_empty());
}

#[test]
fn nodes_are_sorted_by_state_then_role_and_listed_once() {
    let sources = vec![
        "roles { b, a, B }\nstate Z\nstate Ab\nstate A\nstate a\n".to_string(),
        "sequence One:\n  s1: Z[b] -> Ab[a]\n  s2: Ab[a] -> A[b]\n  s3: A[b] -> A[a]\nsequence Two:\n  t1: a[B] -> Z[b]\n  t2: Z[b] -> Z[B]\n  t3: Z[B] -> A[b]\n".to_string(),
    ];
    let system = compile_system("order".to_string(), &sources).unwrap();
    let graph = MartialGraph::from_system(&system);
    assert_eq!(
        graph.nodes,
        vec![node("A", "a"), node("A", "b"), node("Ab", "a"), node("Z", "B"), node("Z", "b"), node("a", "B")]
    );
    assert_eq!(graph.nodes, sorted(graph.nodes.clone()));
}

#[test]
fn edges_follow_sequences_and_steps_in_order() {
    let sources = vec![
        "roles { r } state A state B\nsequence Second: x: B[r] -> A[r] y: A[r] -> A[r]\nsequence First: z: A[r] -> B[r]".to_string(),
    ];
    let system = compile_system("edges".to_string(), &sources).unwrap();
    let graph = MartialGraph::from_system(&system);
    assert_eq!(
        graph.edges,
        vec![
            edge(("B", "r"), ("A", "r"), "x", "Second"),
            edge(("A", "r"), ("A", "r"), "y", "Second"),
            edge(("A", "r"), ("B", "r"), "z", "First"),
        ]
    );
    assert_eq!(graph.system_name, "edges");
}

#[test]
fn a_system_without_sequences_has_an_empty_graph() {
    let system = compile_system("bare".to_string(), &vec!["roles { r } state A".to_string()]).unwrap();
    let graph = MartialGraph::from_system(&system);
    assert!(graph.nodes.is_empty());
    assert!(graph.edges.is_empty());
    assert!(graph.find_unreachable_nodes().is_empty());
    assert_eq!(graph.to_dot(), "digraph \"bare\" {\n  rankdir=LR;\n  node [shape=box, style=rounded];\n\n\n}\n");
}

#[test]
fn node_identifier_and_order() {
    assert_eq!(node("Mount", "Top").id(), "Mount[Top]");
    assert_eq!(node("", "").id(), "[]");
    assert!(node("A", "z").precedes(&node("B", "a")));
    assert!(node("A", "a").precedes(&node("A", "b")));
    assert!(node("A", "").precedes(&node("A", "a")));
    assert!(node("A", "z").precedes(&node("AA", "a")));
    assert!(node("Z", "a").precedes(&node("a", "a")));
    assert!(node("z", "a").precedes(&node("é", "a")));
    assert!(!node("A", "a").precedes(&node("A", "a")));
    assert!(!node("B", "a").precedes(&node("A", "z")));
    assert!(node("A", "a").same(&node("A", "a")));
    assert!(!node("A", "a").same(&node("A", "b")));
    assert!(!node("A", "a").same(&node("a", "a")));
    assert_eq!(node("A", "a").clone(), node("A", "a"));
}

#[test]
fn reachability_follows_edges_forward() {
    let g = graph(
        vec![],
        vec![
            edge(("A", "r"), ("B", "r"), "1", "s"),
            edge(("B", "r"), ("C", "r"), "2", "s"),
            edge(("C", "r"), ("A", "r"), "3", "s"),
            edge(("C", "r"), ("D", "r"), "4", "s"),
            edge(("E", "r"), ("A", "r"), "5", "s"),
            edge(("D", "r"), ("D", "r"), "6", "s"),
        ],
    );
    assert_eq!(
        sorted(g.reachable_from(&node("A", "r"))),
        vec![node("A", "r"), node("B", "r"), node("C", "r"), node("D", "r")]
    );
    assert_eq!(sorted(g.reachable_from(&node("D", "r"))), vec![node("D", "r")]);
    assert_eq!(sorted(g.reachable_from(&node("E", "r"))).len(), 5);
    assert_eq!(g.reachable_from(&node("A", "other")), vec![node("A", "other")]);
}

#[test]
fn every_node_reaches_itself() {
    let g = graph(vec![], vec![]);
    assert_eq!(g.reachable_from(&node("Nowhere", "r")), vec![node("Nowhere", "r")]);
}

#[test]
fn unreachable_nodes_are_those_that_no_edge_touches() {
    let g = graph(
        vec![node("A", "r"), node("Lonely", "r"), node("B", "r"), node("Lonely", "q"), node("Lonely", "r")],
        vec![edge(("A", "r"), ("B", "r"), "1", "s")],
    );
    assert_eq!(
        g.find_unreachable_nodes(),
        vec![node("Lonely", "r"), node("Lonely", "q"), node("Lonely", "r")]
    );
    let stats = g.statistics();
    assert_eq!(stats.isolated_nodes, g.find_unreachable_nodes());
}

#[test]
fn statistics_classify_nodes() {
    let g = graph(
        vec![node("Src", "r"), node("Mid", "r"), node("Sink", "r"), node("Loop", "r"), node("Alone", "r")],
        vec![
            edge(("Src", "r"), ("Mid", "r"), "1", "s"),
            edge(("Mid", "r"), ("Sink", "r"), "2", "s"),
            edge(("Src", "r"), ("Sink", "r"), "3", "s"),
            edge(("Loop", "r"), ("Loop", "r"), "4", "s"),
            edge(("Mid", "r"), ("Mid", "r"), "5", "s"),
        ],
    );
    let stats = g.statistics();
    assert_eq!(stats.node_count, 5);
    assert_eq!(stats.edge_count, 5);
    assert_eq!(stats.self_loops, 2);
    assert_eq!(stats.source_nodes, vec![node("Src", "r")]);
    assert_eq!(stats.sink_nodes, vec![node("Sink", "r")]);
    assert_eq!(stats.isolated_nodes, vec![node("Alone", "r")]);
}

#[test]
fn dot_export_is_exact() {
    let g = MartialGraph {
        system_name: "BJJ".to_string(),
        nodes: vec![node("Guard", "Bottom"), node("Mount", "Bottom")],
        edges: vec![edge(("Mount", "Bottom"), ("Guard", "Bottom"), "Shrimp", "Escape")],
    };
    let expected = "digraph \"BJJ\" {\n  rankdir=LR;\n  node [shape=box, style=rounded];\n\n  \"Guard[Bottom]\" [label=\"Guard\\n[Bottom]\"];\n  \"Mount[Bottom]\" [label=\"Mount\\n[Bottom]\"];\n\n  \"Mount[Bottom]\" -> \"Guard[Bottom]\" [label=\"Shrimp\"];\n}\n";
    assert_eq!(g.to_dot(), expected);
}

#[test]
fn membership_in_a_list_of_nodes() {
    let list = vec![node("A", "r"), node("B", "r")];
    assert!(contains_node(&list, &node("B", "r")));
    assert!(!contains_node(&list, &node("B", "q")));
    assert!(!contains_node(&vec![], &node("B", "q")));
}

#[test]
fn edges_can_be_cloned() {
    let e = edge(("A", "r"), ("B", "r"), "go", "S");
    assert_eq!(e.clone(), e);
}
