//! The graph of a system: one node for each endpoint that occurs in a step,
//! one edge for each step.
//!
//! A node is a state taken by a role. The nodes of a graph built from a
//! system are sorted by state and then by role, each listed once; its edges
//! follow the sequences and their steps in order of declaration.

use vstd::prelude::*;
use crate::ast::{views, SequenceStepView, SequenceView, StateRefView};
use crate::semantic::MartialSystem;
use crate::text::{
    lemma_precedes_irreflexive, lemma_precedes_total, lemma_precedes_transitive, precedes,
    same_text, text_precedes,
};

verus! {

/// A node of the graph: a state taken by a role.
#[derive(Debug, PartialEq, Eq, Hash)]
pub struct Node {
    pub state: String,
    pub role: String,
}

/// Model of a [`Node`].
pub struct NodeView {
    pub state: Seq<char>,
    pub role: Seq<char>,
}

impl View for Node {
    type V = NodeView;

    open spec fn view(&self) -> NodeView {
        NodeView { state: self.state@, role: self.role@ }
    }
}

impl Clone for Node {
    fn clone(&self) -> (r: Self)
        ensures
            r@ == self@,
    {
        Node { state: self.state.clone(), role: self.role.clone() }
    }
}

/// How a node is identified in output, as in `Mount[Top]`.
pub open spec fn node_id(node: NodeView) -> Seq<char> {
    node.state + "["@ + node.role + "]"@
}

/// The order of nodes: by state, and among nodes of one state by role.
pub open spec fn node_precedes(a: NodeView, b: NodeView) -> bool {
    text_precedes(a.state, b.state) || (a.state == b.state && text_precedes(a.role, b.role))
}

/// Each node comes strictly before all that follow it. Such a list holds no
/// node twice.
pub open spec fn strictly_sorted(nodes: Seq<NodeView>) -> bool {
    forall|i: int, j: int| 0 <= i < j < nodes.len() ==> node_precedes(nodes[i], nodes[j])
}

impl Node {
    /// The node of `state` taken by `role`.
    pub fn new(state: String, role: String) -> (r: Self)
        ensures
            r@ == (NodeView { state: state@, role: role@ }),
    {
        Node { state, role }
    }

    /// The identifier of the node, as in `Mount[Top]`.
    pub fn id(&self) -> (r: String)
        ensures
            r@ == node_id(self@),
    {
        let mut out = self.state.clone();
        out.append("[");
        out.append(self.role.as_str());
        out.append("]");
        out
    }

    /// Whether two nodes have the same state and the same role.
    pub fn same(&self, other: &Node) -> (r: bool)
        ensures
            r == (self@ == other@),
    {
        same_text(self.state.as_str(), other.state.as_str()) && same_text(
            self.role.as_str(),
            other.role.as_str(),
        )
    }

    /// Whether this node comes strictly before `other` in the order of nodes.
    pub fn precedes(&self, other: &Node) -> (r: bool)
        ensures
            r == node_precedes(self@, other@),
    {
        if precedes(self.state.as_str(), other.state.as_str()) {
            true
        } else if same_text(self.state.as_str(), other.state.as_str()) {
            precedes(self.role.as_str(), other.role.as_str())
        } else {
            false
        }
    }
}

/// An edge of the graph: the step `action` of the sequence `sequence`, which
/// leads from one node to another.
#[derive(Debug, PartialEq)]
pub struct Edge {
    pub from: Node,
    pub to: Node,
    pub action: String,
    pub sequence: String,
}

/// Model of an [`Edge`].
pub struct EdgeView {
    pub from: NodeView,
    pub to: NodeView,
    pub action: Seq<char>,
    pub sequence: Seq<char>,
}

impl View for Edge {
    type V = EdgeView;

    open spec fn view(&self) -> EdgeView {
        EdgeView {
            from: self.from@,
            to: self.to@,
            action: self.action@,
            sequence: self.sequence@,
        }
    }
}

impl Clone for Edge {
    fn clone(&self) -> (r: Self)
        ensures
            r@ == self@,
    {
        Edge {
            from: self.from.clone(),
            to: self.to.clone(),
            action: self.action.clone(),
            sequence: self.sequence.clone(),
        }
    }
}

/// The node of an endpoint.
pub open spec fn node_of(r: StateRefView) -> NodeView {
    NodeView { state: r.state, role: r.role }
}

/// The edge of one step of the sequence called `sequence`.
pub open spec fn edge_of(sequence: Seq<char>, step: SequenceStepView) -> EdgeView {
    EdgeView {
        from: node_of(step.from),
        to: node_of(step.to),
        action: step.action_name,
        sequence,
    }
}

/// The edges of the first `count` steps of a sequence, in order.
pub open spec fn step_edges(sequence: SequenceView, count: int) -> Seq<EdgeView>
    decreases count,
{
    if count <= 0 {
        Seq::empty()
    } else {
        step_edges(sequence, count - 1).push(edge_of(sequence.name, sequence.steps[count - 1]))
    }
}

/// The edges of a list of sequences: those of the first sequence, step by
/// step, then those of the second, and so on.
pub open spec fn system_edges(sequences: Seq<SequenceView>) -> Seq<EdgeView>
    decreases sequences.len(),
{
    if sequences.len() == 0 {
        Seq::empty()
    } else {
        system_edges(sequences.drop_last()) + step_edges(
            sequences.last(),
            sequences.last().steps.len() as int,
        )
    }
}

/// Whether `node` is the start or the end of one of `edges`.
pub open spec fn is_endpoint(edges: Seq<EdgeView>, node: NodeView) -> bool {
    exists|i: int| 0 <= i < edges.len() && ((#[trigger] edges[i]).from == node || edges[i].to == node)
}

/// Whether one of `edges` ends at `node`.
pub open spec fn has_incoming(edges: Seq<EdgeView>, node: NodeView) -> bool {
    exists|i: int| 0 <= i < edges.len() && (#[trigger] edges[i]).to == node
}

/// Whether one of `edges` starts at `node`.
pub open spec fn has_outgoing(edges: Seq<EdgeView>, node: NodeView) -> bool {
    exists|i: int| 0 <= i < edges.len() && (#[trigger] edges[i]).from == node
}

/// Whether `node` can be reached from `start` over exactly `steps` edges.
pub open spec fn reaches_in(edges: Seq<EdgeView>, start: NodeView, node: NodeView, steps: nat) -> bool
    decreases steps,
{
    if steps == 0 {
        node == start
    } else {
        exists|i: int|
            0 <= i < edges.len() && (#[trigger] edges[i]).to == node && reaches_in(
                edges,
                start,
                edges[i].from,
                (steps - 1) as nat,
            )
    }
}

/// Whether `node` can be reached from `start` by following edges forward.
/// Every node reaches itself.
pub open spec fn reachable(edges: Seq<EdgeView>, start: NodeView, node: NodeView) -> bool {
    exists|steps: nat| reaches_in(edges, start, node, steps)
}

/// A directed graph of nodes and edges, with the name of its system.
#[derive(Debug)]
pub struct MartialGraph {
    pub system_name: String,
    pub nodes: Vec<Node>,
    pub edges: Vec<Edge>,
}

/// Model of a [`MartialGraph`].
pub struct MartialGraphView {
    pub system_name: Seq<char>,
    pub nodes: Seq<NodeView>,
    pub edges: Seq<EdgeView>,
}

impl View for MartialGraph {
    type V = MartialGraphView;

    open spec fn view(&self) -> MartialGraphView {
        MartialGraphView {
            system_name: self.system_name@,
            nodes: views(self.nodes@),
            edges: views(self.edges@),
        }
    }
}

impl Clone for MartialGraph {
    fn clone(&self) -> (r: Self)
        ensures
            r@ == self@,
    {
        let nodes = self.nodes.clone();
        let edges = self.edges.clone();
        assert(views(nodes@) =~= views(self.nodes@));
        assert(views(edges@) =~= views(self.edges@));
        MartialGraph { system_name: self.system_name.clone(), nodes, edges }
    }
}

/// The order of nodes is irreflexive.
pub proof fn lemma_node_order_irreflexive(a: NodeView)
    ensures
        !node_precedes(a, a),
{
    lemma_precedes_irreflexive(a.state);
    lemma_precedes_irreflexive(a.role);
}

/// A strictly sorted list of nodes holds no node twice.
pub proof fn law_sorted_nodes_are_distinct(nodes: Seq<NodeView>)
    requires
        strictly_sorted(nodes),
    ensures
        nodes.no_duplicates(),
{
    assert forall|i: int, j: int| 0 <= i < nodes.len() && 0 <= j < nodes.len() && i
        != j implies nodes[i] != nodes[j] by {
        lemma_node_order_irreflexive(nodes[i]);
        if i < j {
            assert(node_precedes(nodes[i], nodes[j]));
        } else {
            assert(node_precedes(nodes[j], nodes[i]));
        }
    }
}

/// Of two different nodes, exactly one precedes the other.
pub proof fn lemma_node_order_total(a: NodeView, b: NodeView)
    ensures
        a == b || node_precedes(a, b) || node_precedes(b, a),
        !(node_precedes(a, b) && node_precedes(b, a)),
{
    lemma_precedes_total(a.state, b.state);
    lemma_precedes_total(a.role, b.role);
    lemma_precedes_irreflexive(a.state);
}

/// The order of nodes is transitive.
pub proof fn lemma_node_order_transitive(a: NodeView, b: NodeView, c: NodeView)
    requires
        node_precedes(a, b),
        node_precedes(b, c),
    ensures
        node_precedes(a, c),
{
    if text_precedes(a.state, b.state) && text_precedes(b.state, c.state) {
        lemma_precedes_transitive(a.state, b.state, c.state);
    } else if a.state == b.state && b.state == c.state {
        lemma_precedes_transitive(a.role, b.role, c.role);
    }
}

/// Puts `node` into the sorted list `nodes`, unless it is there already.
fn insert_sorted(nodes: &mut Vec<Node>, node: Node)
    requires
        strictly_sorted(views(old(nodes)@)),
    ensures
        strictly_sorted(views(final(nodes)@)),
        forall|n: NodeView|
            views(final(nodes)@).contains(n) <==> (views(old(nodes)@).contains(n) || n == node@),
{
    let ghost before = views(nodes@);
    let mut i: usize = 0;
    while i < nodes.len() && nodes[i].precedes(&node)
        invariant
            i <= nodes.len(),
            nodes@ == old(nodes)@,
            before == views(nodes@),
            forall|j: int| 0 <= j < i ==> node_precedes(before[j], node@),
        decreases nodes.len() - i,
    {
        i += 1;
    }
    if i < nodes.len() && nodes[i].same(&node) {
        assert(before[i as int] == node@);
        return ;
    }
    nodes.insert(i, node);
    proof {
        let after = views(nodes@);
        assert(after =~= before.insert(i as int, node@));
        assert forall|k: int| i <= k < before.len() implies node_precedes(node@, before[k]) by {
            lemma_node_order_total(before[i as int], node@);
            if k > i {
                lemma_node_order_transitive(node@, before[i as int], before[k]);
            }
        }
        assert forall|a: int, b: int| 0 <= a < b < after.len() implies node_precedes(
            after[a],
            after[b],
        ) by {
            if a < i && b > i {
                lemma_node_order_transitive(before[a], node@, before[b - 1]);
            }
        }
        assert forall|n: NodeView| after.contains(n) <==> (before.contains(n) || n == node@) by {
            if after.contains(n) {
                let k = choose|k: int| 0 <= k < after.len() && after[k] == n;
                if k < i {
                    assert(before[k] == n);
                } else if k > i {
                    assert(before[k - 1] == n);
                }
            }
            if before.contains(n) {
                let k = choose|k: int| 0 <= k < before.len() && before[k] == n;
                if k < i {
                    assert(after[k] == n);
                } else {
                    assert(after[k + 1] == n);
                }
            }
            if n == node@ {
                assert(after[i as int] == n);
            }
        }
    }
}

/// Whether `node` is one of `list`.
pub fn contains_node(list: &Vec<Node>, node: &Node) -> (r: bool)
    ensures
        r == views(list@).contains(node@),
{
    let mut i: usize = 0;
    while i < list.len()
        invariant
            i <= list.len(),
            forall|j: int| 0 <= j < i ==> views(list@)[j] != node@,
        decreases list.len() - i,
    {
        if list[i].same(node) {
            assert(views(list@)[i as int] == node@);
            return true;
        }
        i += 1;
    }
    false
}

/// With one more edge, the endpoints are those of before and the two ends of
/// the new edge.
pub proof fn lemma_endpoint_push(edges: Seq<EdgeView>, edge: EdgeView, node: NodeView)
    ensures
        is_endpoint(edges.push(edge), node) <==> (is_endpoint(edges, node) || edge.from == node
            || edge.to == node),
{
    let more = edges.push(edge);
    if is_endpoint(edges, node) {
        let i = choose|i: int|
            0 <= i < edges.len() && ((#[trigger] edges[i]).from == node || edges[i].to == node);
        assert(more[i] == edges[i]);
    }
    if edge.from == node || edge.to == node {
        assert(more[edges.len() as int] == edge);
    }
    if is_endpoint(more, node) {
        let i = choose|i: int|
            0 <= i < more.len() && ((#[trigger] more[i]).from == node || more[i].to == node);
        if i < edges.len() {
            assert(edges[i] == more[i]);
        }
    }
}

/// A list without repetitions whose items all occur in another list is no
/// longer than that list.
pub proof fn lemma_distinct_within<A>(items: Seq<A>, all: Seq<A>)
    requires
        items.no_duplicates(),
        forall|i: int| 0 <= i < items.len() ==> all.contains(#[trigger] items[i]),
    ensures
        items.len() <= all.len(),
{
    items.unique_seq_to_set();
    all.lemma_cardinality_of_set();
    vstd::seq_lib::seq_to_set_is_finite(items);
    vstd::seq_lib::seq_to_set_is_finite(all);
    assert forall|x: A| items.to_set().contains(x) implies all.to_set().contains(x) by {
        let i = choose|i: int| 0 <= i < items.len() && items[i] == x;
        assert(all.contains(items[i]));
    }
    vstd::set_lib::lemma_len_subset(items.to_set(), all.to_set());
}

/// Every edge that starts at one of the first `done` nodes of `nodes` ends at
/// one of `nodes`.
pub open spec fn closed_up_to(edges: Seq<EdgeView>, nodes: Seq<NodeView>, done: int) -> bool {
    forall|k: int, e: int|
        0 <= k < done && 0 <= e < edges.len() && (#[trigger] edges[e]).from == (#[trigger] nodes[k])
            ==> nodes.contains(edges[e].to)
}

/// A list of nodes that holds `start` and is closed under the edges holds
/// every node that can be reached from `start`.
pub proof fn lemma_closed_holds_reachable(
    edges: Seq<EdgeView>,
    nodes: Seq<NodeView>,
    start: NodeView,
    node: NodeView,
    steps: nat,
)
    requires
        nodes.contains(start),
        closed_up_to(edges, nodes, nodes.len() as int),
        reaches_in(edges, start, node, steps),
    ensures
        nodes.contains(node),
    decreases steps,
{
    if steps > 0 {
        let i = choose|i: int|
            0 <= i < edges.len() && (#[trigger] edges[i]).to == node && reaches_in(
                edges,
                start,
                edges[i].from,
                (steps - 1) as nat,
            );
        lemma_closed_holds_reachable(edges, nodes, start, edges[i].from, (steps - 1) as nat);
        let k = choose|k: int| 0 <= k < nodes.len() && nodes[k] == edges[i].from;
        assert(edges[i].from == nodes[k]);
    }
}

/// What can be reached from a node that can be reached from `start` can be
/// reached from `start`.
pub proof fn lemma_reachable_step(
    edges: Seq<EdgeView>,
    start: NodeView,
    via: NodeView,
    e: int,
)
    requires
        reachable(edges, start, via),
        0 <= e < edges.len(),
        edges[e].from == via,
    ensures
        reachable(edges, start, edges[e].to),
{
    let steps = choose|steps: nat| reaches_in(edges, start, via, steps);
    assert(reaches_in(edges, start, edges[e].to, steps + 1));
}

/// The nodes at which any walk from `start` may arrive: the ends of the
/// edges, and `start` itself.
pub open spec fn arrivals(edges: Seq<EdgeView>, start: NodeView) -> Seq<NodeView> {
    edges.map_values(|e: EdgeView| e.to).push(start)
}

/// Whether `node` can be reached from the start of one of `edges`.
pub open spec fn reachable_from_a_source(edges: Seq<EdgeView>, node: NodeView) -> bool {
    exists|i: int| 0 <= i < edges.len() && reachable(edges, (#[trigger] edges[i]).from, node)
}

/// A walk that has arrived somewhere other than at its start has arrived at
/// the end of an edge.
pub proof fn lemma_reached_is_endpoint(
    edges: Seq<EdgeView>,
    start: NodeView,
    node: NodeView,
    steps: nat,
)
    requires
        reaches_in(edges, start, node, steps),
    ensures
        node == start || has_incoming(edges, node),
{
}

/// A node can be reached from the start of an edge exactly when it is an
/// endpoint of an edge.
pub proof fn lemma_reachable_from_a_source_iff(edges: Seq<EdgeView>, node: NodeView)
    ensures
        reachable_from_a_source(edges, node) <==> is_endpoint(edges, node),
{
    if reachable_from_a_source(edges, node) {
        let i = choose|i: int|
            0 <= i < edges.len() && reachable(edges, (#[trigger] edges[i]).from, node);
        let steps = choose|steps: nat| reaches_in(edges, edges[i].from, node, steps);
        lemma_reached_is_endpoint(edges, edges[i].from, node, steps);
        if node != edges[i].from {
            let j = choose|j: int| 0 <= j < edges.len() && (#[trigger] edges[j]).to == node;
            assert(edges[j].to == node);
        }
    }
    if is_endpoint(edges, node) {
        let i = choose|i: int|
            0 <= i < edges.len() && ((#[trigger] edges[i]).from == node || edges[i].to == node);
        if edges[i].from == node {
            assert(reaches_in(edges, edges[i].from, node, 0));
        } else {
            assert(reaches_in(edges, edges[i].from, edges[i].from, 0));
            assert(reaches_in(edges, edges[i].from, node, 1));
        }
        assert(reachable(edges, edges[i].from, node));
    }
}

/// A graph whose nodes are all endpoints of its edges, as the graph of a
/// system is, has no node that cannot be reached from the start of an edge.
pub proof fn law_endpoints_are_reached(nodes: Seq<NodeView>, edges: Seq<EdgeView>)
    requires
        forall|i: int| 0 <= i < nodes.len() ==> is_endpoint(edges, #[trigger] nodes[i]),
    ensures
        nodes.filter(out_of_reach(edges)).len() == 0,
    decreases nodes.len(),
{
    reveal(Seq::filter);
    if nodes.len() > 0 {
        let front = nodes.drop_last();
        assert forall|i: int| 0 <= i < front.len() implies is_endpoint(
            edges,
            #[trigger] front[i],
        ) by {
            assert(front[i] == nodes[i]);
        }
        law_endpoints_are_reached(front, edges);
        assert(is_endpoint(edges, nodes[nodes.len() - 1]));
        lemma_reachable_from_a_source_iff(edges, nodes.last());
    }
}

/// The nodes that cannot be reached from the start of any edge.
pub open spec fn out_of_reach(edges: Seq<EdgeView>) -> spec_fn(NodeView) -> bool {
    |node: NodeView| !reachable_from_a_source(edges, node)
}

/// The nodes with (`incoming`) or without an edge that ends at them, and with
/// (`outgoing`) or without an edge that starts at them.
pub open spec fn with_degrees(edges: Seq<EdgeView>, incoming: bool, outgoing: bool) -> spec_fn(
    NodeView,
) -> bool {
    |node: NodeView|
        has_incoming(edges, node) == incoming && has_outgoing(edges, node) == outgoing
}

/// The edges that start and end at the same node.
pub open spec fn is_self_loop() -> spec_fn(EdgeView) -> bool {
    |edge: EdgeView| edge.from == edge.to
}

/// The line that declares one node in Graphviz's DOT language: its
/// identifier and, as its label, the state above the role in brackets.
pub open spec fn node_line(node: NodeView) -> Seq<char> {
    "  \""@ + node_id(node) + "\" [label=\""@ + node.state + "\\n["@ + node.role + "]\"];\n"@
}

/// The line that declares one edge in DOT: from node to node, labelled with
/// the action.
pub open spec fn edge_line(edge: EdgeView) -> Seq<char> {
    "  \""@ + node_id(edge.from) + "\" -> \""@ + node_id(edge.to) + "\" [label=\""@ + edge.action
        + "\"];\n"@
}

/// The lines of a list of nodes, in order.
pub open spec fn node_lines(nodes: Seq<NodeView>) -> Seq<char>
    decreases nodes.len(),
{
    if nodes.len() == 0 {
        Seq::empty()
    } else {
        node_lines(nodes.drop_last()) + node_line(nodes.last())
    }
}

/// The lines of a list of edges, in order.
pub open spec fn edge_lines(edges: Seq<EdgeView>) -> Seq<char>
    decreases edges.len(),
{
    if edges.len() == 0 {
        Seq::empty()
    } else {
        edge_lines(edges.drop_last()) + edge_line(edges.last())
    }
}

/// A graph in DOT: a header with the name of the system and the layout, the
/// nodes, an empty line, the edges, and the closing brace.
pub open spec fn dot_text(graph: MartialGraphView) -> Seq<char> {
    "digraph \""@ + graph.system_name + "\" {\n"@ + "  rankdir=LR;\n"@
        + "  node [shape=box, style=rounded];\n\n"@ + node_lines(graph.nodes) + "\n"@ + edge_lines(
        graph.edges,
    ) + "}\n"@
}

fn push_node_line(out: &mut String, node: &Node)
    ensures
        final(out)@ == old(out)@ + node_line(node@),
{
    let ghost before = out@;
    let id = node.id();
    out.append("  \"");
    out.append(id.as_str());
    out.append("\" [label=\"");
    out.append(node.state.as_str());
    out.append("\\n[");
    out.append(node.role.as_str());
    out.append("]\"];\n");
    assert(out@ =~= before + node_line(node@));
}

fn push_edge_line(out: &mut String, edge: &Edge)
    ensures
        final(out)@ == old(out)@ + edge_line(edge@),
{
    let ghost before = out@;
    let from = edge.from.id();
    let to = edge.to.id();
    out.append("  \"");
    out.append(from.as_str());
    out.append("\" -> \"");
    out.append(to.as_str());
    out.append("\" [label=\"");
    out.append(edge.action.as_str());
    out.append("\"];\n");
    assert(out@ =~= before + edge_line(edge@));
}

/// Figures about a graph.
#[derive(Debug)]
pub struct GraphStatistics {
    pub node_count: usize,
    pub edge_count: usize,
    pub self_loops: usize,
    pub source_nodes: Vec<Node>,
    pub sink_nodes: Vec<Node>,
    pub isolated_nodes: Vec<Node>,
}

impl Clone for GraphStatistics {
    fn clone(&self) -> (r: Self)
        ensures
            r.node_count == self.node_count,
            r.edge_count == self.edge_count,
            r.self_loops == self.self_loops,
            views(r.source_nodes@) == views(self.source_nodes@),
            views(r.sink_nodes@) == views(self.sink_nodes@),
            views(r.isolated_nodes@) == views(self.isolated_nodes@),
    {
        let source_nodes = self.source_nodes.clone();
        let sink_nodes = self.sink_nodes.clone();
        let isolated_nodes = self.isolated_nodes.clone();
        assert(views(source_nodes@) =~= views(self.source_nodes@));
        assert(views(sink_nodes@) =~= views(self.sink_nodes@));
        assert(views(isolated_nodes@) =~= views(self.isolated_nodes@));
        GraphStatistics {
            node_count: self.node_count,
            edge_count: self.edge_count,
            self_loops: self.self_loops,
            source_nodes,
            sink_nodes,
            isolated_nodes,
        }
    }
}

fn has_edge_to(edges: &Vec<Edge>, node: &Node) -> (r: bool)
    ensures
        r == has_incoming(views(edges@), node@),
{
    let mut i: usize = 0;
    while i < edges.len()
        invariant
            i <= edges.len(),
            forall|j: int| 0 <= j < i ==> views(edges@)[j].to != node@,
        decreases edges.len() - i,
    {
        assert(views(edges@)[i as int] == edges@[i as int]@);
        if edges[i].to.same(node) {
            return true;
        }
        i += 1;
    }
    false
}

fn has_edge_from(edges: &Vec<Edge>, node: &Node) -> (r: bool)
    ensures
        r == has_outgoing(views(edges@), node@),
{
    let mut i: usize = 0;
    while i < edges.len()
        invariant
            i <= edges.len(),
            forall|j: int| 0 <= j < i ==> views(edges@)[j].from != node@,
        decreases edges.len() - i,
    {
        assert(views(edges@)[i as int] == edges@[i as int]@);
        if edges[i].from.same(node) {
            return true;
        }
        i += 1;
    }
    false
}

fn nodes_with_degrees(nodes: &Vec<Node>, edges: &Vec<Edge>, incoming: bool, outgoing: bool) -> (r:
    Vec<Node>)
    ensures
        views(r@) == views(nodes@).filter(with_degrees(views(edges@), incoming, outgoing)),
{
    let ghost all = views(nodes@);
    let ghost wanted = with_degrees(views(edges@), incoming, outgoing);
    let mut out: Vec<Node> = Vec::new();
    let mut i: usize = 0;
    proof {
        reveal(Seq::filter);
        assert(all.take(0) =~= Seq::<NodeView>::empty());
        assert(views(out@) =~= Seq::<NodeView>::empty());
    }
    while i < nodes.len()
        invariant
            i <= nodes.len(),
            all == views(nodes@),
            wanted == with_degrees(views(edges@), incoming, outgoing),
            views(out@) == all.take(i as int).filter(wanted),
        decreases nodes.len() - i,
    {
        let ghost before = views(out@);
        proof {
            assert(all.take(i + 1) =~= all.take(i as int).push(all[i as int]));
            all.take(i as int).lemma_filter_push(all[i as int], wanted);
            assert(all[i as int] == nodes@[i as int]@);
        }
        if has_edge_to(edges, &nodes[i]) == incoming && has_edge_from(edges, &nodes[i])
            == outgoing {
            out.push(nodes[i].clone());
            assert(views(out@) =~= before.push(all[i as int]));
        }
        i += 1;
    }
    assert(all.take(i as int) =~= all);
    out
}

impl MartialGraph {
    /// The graph of `system`: an edge for every step, sequence by sequence in
    /// order of declaration, and the endpoints of the edges as nodes, sorted
    /// by state and role, each once.
    pub fn from_system(system: &MartialSystem) -> (r: MartialGraph)
        ensures
            r@.system_name == system@.name,
            r@.edges == system_edges(system@.sequences),
            strictly_sorted(r@.nodes),
            forall|n: NodeView| r@.nodes.contains(n) <==> is_endpoint(r@.edges, n),
    {
        let ghost sequences = system@.sequences;
        let mut nodes: Vec<Node> = Vec::new();
        let mut edges: Vec<Edge> = Vec::new();
        let mut i: usize = 0;
        proof {
            assert(sequences.take(0) =~= Seq::<SequenceView>::empty());
            assert(views(edges@) =~= Seq::<EdgeView>::empty());
            assert(views(nodes@) =~= Seq::<NodeView>::empty());
        }
        while i < system.sequences.len()
            invariant
                i <= system.sequences.len(),
                sequences == system@.sequences,
                views(edges@) == system_edges(sequences.take(i as int)),
                strictly_sorted(views(nodes@)),
                forall|n: NodeView| views(nodes@).contains(n) <==> is_endpoint(views(edges@), n),
            decreases system.sequences.len() - i,
        {
            let sequence = &system.sequences[i];
            let ghost done = views(edges@);
            assert(sequences[i as int] == sequence@);
            let mut k: usize = 0;
            proof {
                assert(done + step_edges(sequence@, 0) =~= done);
            }
            while k < sequence.steps.len()
                invariant
                    k <= sequence.steps.len(),
                    views(edges@) == done + step_edges(sequence@, k as int),
                    strictly_sorted(views(nodes@)),
                    forall|n: NodeView|
                        views(nodes@).contains(n) <==> is_endpoint(views(edges@), n),
                decreases sequence.steps.len() - k,
            {
                let step = &sequence.steps[k];
                assert(sequence@.steps[k as int] == step@);
                let ghost before = views(edges@);
                let from = Node::new(step.from.state.clone(), step.from.role.clone());
                let to = Node::new(step.to.state.clone(), step.to.role.clone());
                insert_sorted(&mut nodes, from.clone());
                insert_sorted(&mut nodes, to.clone());
                let edge = Edge {
                    from,
                    to,
                    action: step.action_name.clone(),
                    sequence: sequence.name.clone(),
                };
                let ghost added = edge@;
                edges.push(edge);
                proof {
                    assert(added == edge_of(sequence@.name, step@));
                    assert(views(edges@) =~= before.push(added));
                    assert(before.push(added) =~= done + step_edges(sequence@, k + 1));
                    assert forall|n: NodeView|
                        views(nodes@).contains(n) <==> is_endpoint(views(edges@), n) by {
                        lemma_endpoint_push(before, added, n);
                    }
                }
                k += 1;
            }
            proof {
                assert(sequences.take(i + 1).drop_last() =~= sequences.take(i as int));
                assert(sequences.take(i + 1).last() == sequence@);
            }
            i += 1;
        }
        assert(sequences.take(i as int) =~= sequences);
        MartialGraph { system_name: system.name.clone(), nodes, edges }
    }

    /// The nodes that can be reached from `start` by following edges forward,
    /// `start` among them, each once.
    pub fn reachable_from(&self, start: &Node) -> (r: Vec<Node>)
        ensures
            views(r@).no_duplicates(),
            forall|n: NodeView| views(r@).contains(n) <==> reachable(self@.edges, start@, n),
    {
        let ghost edges = self@.edges;
        let ghost all = arrivals(edges, start@);
        let mut found: Vec<Node> = Vec::new();
        found.push(start.clone());
        let mut i: usize = 0;
        proof {
            assert(views(found@) =~= seq![start@]);
            assert(reaches_in(edges, start@, start@, 0));
            assert(all[edges.len() as int] == start@);
        }
        while i < found.len()
            invariant
                i <= found.len(),
                edges == self@.edges,
                all == arrivals(edges, start@),
                found.len() > 0,
                views(found@)[0] == start@,
                views(found@).no_duplicates(),
                forall|k: int|
                    0 <= k < found.len() ==> reachable(edges, start@, #[trigger] views(found@)[k]),
                forall|k: int| 0 <= k < found.len() ==> all.contains(#[trigger] views(found@)[k]),
                closed_up_to(edges, views(found@), i as int),
            decreases edges.len() + 1 - i,
        {
            proof {
                lemma_distinct_within(views(found@), all);
            }
            let mut j: usize = 0;
            while j < self.edges.len()
                invariant
                    i < found.len(),
                    j <= self.edges.len(),
                    edges == self@.edges,
                    all == arrivals(edges, start@),
                    views(found@)[0] == start@,
                    views(found@).no_duplicates(),
                    forall|k: int|
                        0 <= k < found.len() ==> reachable(
                            edges,
                            start@,
                            #[trigger] views(found@)[k],
                        ),
                    forall|k: int|
                        0 <= k < found.len() ==> all.contains(#[trigger] views(found@)[k]),
                    closed_up_to(edges, views(found@), i as int),
                    forall|e: int|
                        0 <= e < j && (#[trigger] edges[e]).from == views(found@)[i as int]
                            ==> views(found@).contains(edges[e].to),
                decreases self.edges.len() - j,
            {
                let ghost before = views(found@);
                assert(edges[j as int] == self.edges@[j as int]@);
                if self.edges[j].from.same(&found[i]) && !contains_node(&found, &self.edges[j].to) {
                    found.push(self.edges[j].to.clone());
                    proof {
                        let after = views(found@);
                        let target = edges[j as int].to;
                        assert(after =~= before.push(target));
                        lemma_reachable_step(edges, start@, before[i as int], j as int);
                        assert(all[j as int] == target);
                        assert forall|k: int, e: int|
                            0 <= k < i && 0 <= e < edges.len() && (#[trigger] edges[e]).from == (
                            #[trigger] after[k]) implies after.contains(edges[e].to) by {
                            assert(before[k] == after[k]);
                            let h = choose|h: int|
                                0 <= h < before.len() && before[h] == edges[e].to;
                            assert(after[h] == edges[e].to);
                        }
                        assert forall|e: int|
                            0 <= e < j + 1 && (#[trigger] edges[e]).from == after[i as int] implies after.contains(
                            edges[e].to,
                        ) by {
                            if e < j {
                                let h = choose|h: int|
                                    0 <= h < before.len() && before[h] == edges[e].to;
                                assert(after[h] == edges[e].to);
                            } else {
                                assert(after[before.len() as int] == target);
                            }
                        }
                    }
                }
                j += 1;
            }
            i += 1;
        }
        proof {
            let nodes = views(found@);
            assert forall|n: NodeView| nodes.contains(n) <==> reachable(edges, start@, n) by {
                if reachable(edges, start@, n) {
                    let steps = choose|steps: nat| reaches_in(edges, start@, n, steps);
                    assert(nodes[0] == start@);
                    lemma_closed_holds_reachable(edges, nodes, start@, n, steps);
                }
            }
        }
        found
    }

    /// The nodes of the graph that cannot be reached from the start of any
    /// edge, in the order in which the graph lists them.
    ///
    /// A walk arrives only at ends of edges, so these are the nodes that are
    /// not an endpoint of any edge.
    pub fn find_unreachable_nodes(&self) -> (r: Vec<Node>)
        ensures
            views(r@) == self@.nodes.filter(out_of_reach(self@.edges)),
    {
        let ghost all = self@.nodes;
        let ghost edges = self@.edges;
        let ghost wanted = out_of_reach(edges);
        let mut out: Vec<Node> = Vec::new();
        let mut i: usize = 0;
        proof {
            reveal(Seq::filter);
            assert(all.take(0) =~= Seq::<NodeView>::empty());
            assert(views(out@) =~= Seq::<NodeView>::empty());
        }
        while i < self.nodes.len()
            invariant
                i <= self.nodes.len(),
                all == self@.nodes,
                edges == self@.edges,
                wanted == out_of_reach(edges),
                views(out@) == all.take(i as int).filter(wanted),
            decreases self.nodes.len() - i,
        {
            let ghost before = views(out@);
            proof {
                assert(all.take(i + 1) =~= all.take(i as int).push(all[i as int]));
                all.take(i as int).lemma_filter_push(all[i as int], wanted);
                assert(all[i as int] == self.nodes@[i as int]@);
                lemma_reachable_from_a_source_iff(edges, all[i as int]);
            }
            if !has_edge_to(&self.edges, &self.nodes[i]) && !has_edge_from(
                &self.edges,
                &self.nodes[i],
            ) {
                out.push(self.nodes[i].clone());
                assert(views(out@) =~= before.push(all[i as int]));
            }
            i += 1;
        }
        assert(all.take(i as int) =~= all);
        out
    }

    /// The graph in Graphviz's DOT language.
    pub fn to_dot(&self) -> (r: String)
        ensures
            r@ == dot_text(self@),
    {
        let ghost nodes = self@.nodes;
        let ghost edges = self@.edges;
        let mut dot = String::new();
        dot.append("digraph \"");
        dot.append(self.system_name.as_str());
        dot.append("\" {\n");
        dot.append("  rankdir=LR;\n");
        dot.append("  node [shape=box, style=rounded];\n\n");
        let ghost head = dot@;
        assert(head =~= "digraph \""@ + self@.system_name + "\" {\n"@ + "  rankdir=LR;\n"@
            + "  node [shape=box, style=rounded];\n\n"@);
        let mut i: usize = 0;
        proof {
            assert(nodes.take(0) =~= Seq::<NodeView>::empty());
            assert(head + node_lines(nodes.take(0)) =~= head);
        }
        while i < self.nodes.len()
            invariant
                i <= self.nodes.len(),
                nodes == self@.nodes,
                dot@ == head + node_lines(nodes.take(i as int)),
            decreases self.nodes.len() - i,
        {
            proof {
                assert(nodes.take(i + 1).drop_last() =~= nodes.take(i as int));
                assert(nodes.take(i + 1).last() == self.nodes@[i as int]@);
            }
            push_node_line(&mut dot, &self.nodes[i]);
            assert(dot@ =~= head + node_lines(nodes.take(i + 1)));
            i += 1;
        }
        assert(nodes.take(i as int) =~= nodes);
        dot.append("\n");
        let ghost middle = dot@;
        let mut j: usize = 0;
        proof {
            assert(edges.take(0) =~= Seq::<EdgeView>::empty());
            assert(middle + edge_lines(edges.take(0)) =~= middle);
        }
        while j < self.edges.len()
            invariant
                j <= self.edges.len(),
                edges == self@.edges,
                dot@ == middle + edge_lines(edges.take(j as int)),
            decreases self.edges.len() - j,
        {
            proof {
                assert(edges.take(j + 1).drop_last() =~= edges.take(j as int));
                assert(edges.take(j + 1).last() == self.edges@[j as int]@);
            }
            push_edge_line(&mut dot, &self.edges[j]);
            assert(dot@ =~= middle + edge_lines(edges.take(j + 1)));
            j += 1;
        }
        assert(edges.take(j as int) =~= edges);
        dot.append("}\n");
        dot
    }

    /// Figures about the graph: how many nodes, edges and self-loops it has,
    /// and which of its nodes are sources (edges start there, none ends
    /// there), sinks (edges end there, none starts there) or isolated.
    pub fn statistics(&self) -> (r: GraphStatistics)
        ensures
            r.node_count == self@.nodes.len(),
            r.edge_count == self@.edges.len(),
            r.self_loops == self@.edges.filter(is_self_loop()).len(),
            views(r.source_nodes@) == self@.nodes.filter(with_degrees(self@.edges, false, true)),
            views(r.sink_nodes@) == self@.nodes.filter(with_degrees(self@.edges, true, false)),
            views(r.isolated_nodes@) == self@.nodes.filter(
                with_degrees(self@.edges, false, false),
            ),
    {
        let ghost edges = self@.edges;
        let ghost looping = is_self_loop();
        let mut self_loops: usize = 0;
        let mut i: usize = 0;
        proof {
            reveal(Seq::filter);
            assert(edges.take(0) =~= Seq::<EdgeView>::empty());
        }
        while i < self.edges.len()
            invariant
                i <= self.edges.len(),
                edges == self@.edges,
                looping == is_self_loop(),
                self_loops == edges.take(i as int).filter(looping).len(),
                self_loops <= i,
            decreases self.edges.len() - i,
        {
            proof {
                assert(edges.take(i + 1) =~= edges.take(i as int).push(edges[i as int]));
                edges.take(i as int).lemma_filter_push(edges[i as int], looping);
                assert(edges[i as int] == self.edges@[i as int]@);
            }
            if self.edges[i].from.same(&self.edges[i].to) {
                self_loops += 1;
            }
            i += 1;
        }
        assert(edges.take(i as int) =~= edges);
        GraphStatistics {
            node_count: self.nodes.len(),
            edge_count: self.edges.len(),
            self_loops,
            source_nodes: nodes_with_degrees(&self.nodes, &self.edges, false, true),
            sink_nodes: nodes_with_degrees(&self.nodes, &self.edges, true, false),
            isolated_nodes: nodes_with_degrees(&self.nodes, &self.edges, false, false),
        }
    }
}

} // verus!
