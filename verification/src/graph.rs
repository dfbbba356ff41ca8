//! The graph that is drawn: the positioned nodes of a table and the
//! connections between them, each pair of opposite connections shown once.

use vstd::prelude::*;
use crate::edges::{
    candidates, candidates_below, candidates_of, derived_edges, has_edge, joins,
    lemma_candidates, lemma_first_index_is, lemma_paired_between, lemma_paired_from_candidates,
    names_at_most_once, only_edge_between, paired, Candidate, Edge,
};
use crate::logic::{
    lemma_positioned_below, positioned, positioned_below, positioned_indices, table_view,
    targets_in_range, LogicNode,
    LogicNodeView,
};

verus! {

/// A general distinction about a [`Connection`].
#[derive(Clone, Copy, Debug, PartialEq, Eq, Structural)]
pub enum ConnectionType {
    /// The connection ends at an anchor.
    Branch,
    /// The connection ends at a pickup, a quest or another terminal node.
    Leaf,
}

/// End point of a [`Connection`].
#[derive(Clone, Debug)]
pub struct Node<P> {
    /// The name of this node.
    pub name: String,
    /// The map position of this node.
    pub position: P,
}

/// The mathematical content of a [`Node`].
pub struct NodeView<P> {
    pub name: Seq<char>,
    pub position: P,
}

impl<P> View for Node<P> {
    type V = NodeView<P>;

    open spec fn view(&self) -> NodeView<P> {
        NodeView { name: self.name@, position: self.position }
    }
}

/// Connection between two [`Node`]s.
#[derive(Clone, Debug)]
pub struct Connection {
    /// Name of the node this connection starts at.
    pub start: String,
    /// Name of the node this connection ends at.
    pub end: String,
    /// `true` if this connection only leads from `start` to `end`, `false` if
    /// it goes in both directions.
    pub unidirectional: bool,
    /// Whether this connection ends at an anchor.
    pub kind: ConnectionType,
}

/// The mathematical content of a [`Connection`].
pub struct ConnectionView {
    pub start: Seq<char>,
    pub end: Seq<char>,
    pub unidirectional: bool,
    pub kind: ConnectionType,
}

impl View for Connection {
    type V = ConnectionView;

    open spec fn view(&self) -> ConnectionView {
        ConnectionView {
            start: self.start@,
            end: self.end@,
            unidirectional: self.unidirectional,
            kind: self.kind,
        }
    }
}

impl Connection {
    /// The [`ConnectionType`] of this connection.
    pub fn kind(&self) -> (kind: ConnectionType)
        ensures
            kind == self.kind,
    {
        self.kind
    }
}

/// Set of [`Node`]s and [`Connection`]s connecting those nodes.
pub struct Graph<P> {
    pub nodes: Vec<Node<P>>,
    pub connections: Vec<Connection>,
}

/// The mathematical content of a [`Graph`].
pub struct GraphView<P> {
    pub nodes: Seq<NodeView<P>>,
    pub connections: Seq<ConnectionView>,
}

impl<P> View for Graph<P> {
    type V = GraphView<P>;

    open spec fn view(&self) -> GraphView<P> {
        GraphView {
            nodes: self.nodes@.map_values(|node: Node<P>| node@),
            connections: self.connections@.map_values(|connection: Connection| connection@),
        }
    }
}

impl<P> Graph<P> {
    /// The connections of this graph, in no order that callers may rely on.
    pub fn connections(&self) -> (connections: &Vec<Connection>)
        ensures
            connections@ == self.connections@,
    {
        &self.connections
    }

    /// The nodes of this graph, in the order of the table they were taken from.
    pub fn nodes(&self) -> (nodes: &Vec<Node<P>>)
        ensures
            nodes@ == self.nodes@,
    {
        &self.nodes
    }
}

/// The node that an entry of the table is drawn as.
pub open spec fn node_of<P>(table: Seq<LogicNodeView<P>>, i: int) -> NodeView<P> {
    NodeView { name: table[i].name, position: table[i].position->0 }
}

/// The nodes that a table is drawn with: one for each positioned entry, in the
/// table's order.
pub open spec fn projected_nodes<P>(table: Seq<LogicNodeView<P>>) -> Seq<NodeView<P>> {
    positioned_indices(table).map_values(|i: usize| node_of(table, i as int))
}

/// What an edge between two entries of the table is shown as.
pub open spec fn connection_of<P>(table: Seq<LogicNodeView<P>>, edge: Edge) -> ConnectionView {
    ConnectionView {
        start: table[edge.start as int].name,
        end: table[edge.end as int].name,
        unidirectional: edge.unidirectional,
        kind: if table[edge.end as int].anchor {
            ConnectionType::Branch
        } else {
            ConnectionType::Leaf
        },
    }
}

/// The connections that a table is drawn with.
pub open spec fn derived_connections<P>(table: Seq<LogicNodeView<P>>) -> Seq<ConnectionView> {
    derived_edges(table).map_values(|edge: Edge| connection_of(table, edge))
}

/// The graph that a table is drawn as.
pub open spec fn graph_of<P>(table: Seq<LogicNodeView<P>>) -> GraphView<P> {
    GraphView { nodes: projected_nodes(table), connections: derived_connections(table) }
}

/// Selects the entries of the table that have a position, in the table's order.
pub fn positioned_nodes<P>(nodes: &Vec<LogicNode<P>>) -> (selected: Vec<usize>)
    ensures
        selected@ == positioned_indices(table_view(nodes@)),
{
    let ghost table = table_view(nodes@);
    let mut selected: Vec<usize> = Vec::new();
    let mut i: usize = 0;
    while i < nodes.len()
        invariant
            i <= nodes.len(),
            table == table_view(nodes@),
            selected@ == positioned_below(table, i as nat),
        decreases nodes.len() - i,
    {
        if nodes[i].position().is_some() {
            selected.push(i);
        }
        i += 1;
    }
    selected
}

/// Projects each selected entry of the table to the node it is drawn as: its
/// name and its position, in the order of the selection.
pub fn nodes<P: Copy>(table: &Vec<LogicNode<P>>, selected: &Vec<usize>) -> (drawn: Vec<Node<P>>)
    requires
        forall|k: int|
            0 <= k < selected@.len() ==> positioned(
                table_view(table@),
                #[trigger] selected@[k] as int,
            ),
    ensures
        drawn@.map_values(|node: Node<P>| node@) == selected@.map_values(
            |i: usize| node_of(table_view(table@), i as int),
        ),
{
    let ghost model = table_view(table@);
    let mut drawn: Vec<Node<P>> = Vec::new();
    let mut k: usize = 0;
    while k < selected.len()
        invariant
            k <= selected.len(),
            model == table_view(table@),
            forall|j: int|
                0 <= j < selected@.len() ==> positioned(model, #[trigger] selected@[j] as int),
            drawn@.len() == k,
            forall|j: int|
                0 <= j < k ==> (#[trigger] drawn@[j])@ == node_of(model, selected@[j] as int),
        decreases selected.len() - k,
    {
        let i = selected[k];
        assert(positioned(model, selected@[k as int] as int));
        let node = &table[i];
        let name = node.identifier().clone();
        if let Some(position) = node.position() {
            drawn.push(Node { name, position: *position });
        }
        k += 1;
    }
    assert(drawn@.map_values(|node: Node<P>| node@) =~= selected@.map_values(
        |i: usize| node_of(model, i as int),
    ));
    drawn
}

/// Derives the connections between the selected entries of the table.
///
/// Every connection of a selected anchor whose target has a position is a
/// candidate. The candidates are then paired up: two that run opposite ways
/// between the same two entries become one connection that is not
/// unidirectional, and a candidate without such a partner becomes a
/// unidirectional one. A connection is of kind `Branch` if it ends at an
/// anchor, and carries the names of the entries it runs between.
pub fn connections<P>(table: &Vec<LogicNode<P>>, selected: &Vec<usize>) -> (drawn: Vec<Connection>)
    requires
        targets_in_range(table_view(table@)),
        forall|n: int| 0 <= n < selected@.len() ==> (#[trigger] selected@[n]) < table@.len(),
    ensures
        drawn@.map_values(|connection: Connection| connection@) == paired(
            candidates(table_view(table@), selected@),
        ).map_values(|edge: Edge| connection_of(table_view(table@), edge)),
{
    let ghost model = table_view(table@);
    let mut node_pairs: Vec<Candidate> = Vec::new();
    let mut n: usize = 0;
    while n < selected.len()
        invariant
            n <= selected.len(),
            model == table_view(table@),
            targets_in_range(model),
            forall|m: int| 0 <= m < selected@.len() ==> (#[trigger] selected@[m]) < table@.len(),
            node_pairs@ == candidates_below(model, selected@, n as nat),
            forall|j: int|
                0 <= j < node_pairs@.len() ==> (#[trigger] node_pairs@[j]).0 < table@.len()
                    && node_pairs@[j].1 < table@.len(),
        decreases selected.len() - n,
    {
        let start = selected[n];
        match &table[start] {
            LogicNode::Anchor { connections, .. } => {
                let ghost before = node_pairs@;
                let mut k: usize = 0;
                while k < connections.len()
                    invariant
                        k <= connections.len(),
                        start < table@.len(),
                        model == table_view(table@),
                        targets_in_range(model),
                        model[start as int].targets == connections@,
                        node_pairs@ == before + candidates_of(model, start, k as nat),
                        forall|j: int|
                            0 <= j < node_pairs@.len() ==> (#[trigger] node_pairs@[j]).0
                                < table@.len() && node_pairs@[j].1 < table@.len(),
                    decreases connections.len() - k,
                {
                    let end = connections[k];
                    assert(model[start as int].targets[k as int] < model.len());
                    let ghost found = candidates_of(model, start, k as nat);
                    if table[end].position().is_some() {
                        node_pairs.push((start, end));
                        assert(node_pairs@ =~= before + found.push((start, end)));
                    }
                    k += 1;
                }
            },
            LogicNode::Leaf { .. } => {},
        }
        n += 1;
    }
    let ghost all = node_pairs@;
    let ghost mut edges: Seq<Edge> = Seq::empty();
    let mut drawn: Vec<Connection> = Vec::with_capacity(node_pairs.len());
    assert(paired(all) =~= edges + paired(node_pairs@));
    while node_pairs.len() > 0
        invariant
            model == table_view(table@),
            paired(all) == edges + paired(node_pairs@),
            drawn@.len() == edges.len(),
            forall|k: int|
                0 <= k < edges.len() ==> (#[trigger] drawn@[k])@ == connection_of(model, edges[k]),
            forall|j: int|
                0 <= j < node_pairs@.len() ==> (#[trigger] node_pairs@[j]).0 < table@.len()
                    && node_pairs@[j].1 < table@.len(),
        decreases node_pairs.len(),
    {
        let ghost taken = node_pairs@;
        let (start, end) = node_pairs.pop().unwrap();
        let ghost rest = node_pairs@;
        let mut j: usize = 0;
        while j < node_pairs.len() && !(node_pairs[j].0 == end && node_pairs[j].1 == start)
            invariant
                j <= node_pairs.len(),
                node_pairs@ == rest,
                forall|i: int| 0 <= i < j ==> rest[i] != (end, start),
            decreases node_pairs.len() - j,
        {
            j += 1;
        }
        proof {
            lemma_first_index_is(rest, (end, start), j as int);
        }
        let unidirectional = if j < node_pairs.len() {
            node_pairs.remove(j);
            false
        } else {
            true
        };
        let kind = if table[end].is_anchor() {
            ConnectionType::Branch
        } else {
            ConnectionType::Leaf
        };
        let connection = Connection {
            start: table[start].identifier().clone(),
            end: table[end].identifier().clone(),
            unidirectional,
            kind,
        };
        let ghost edge = Edge { start, end, unidirectional };
        assert(paired(taken) == seq![edge] + paired(node_pairs@));
        assert(edges.push(edge) + paired(node_pairs@) =~= edges + (seq![edge] + paired(
            node_pairs@,
        )));
        drawn.push(connection);
        proof {
            edges = edges.push(edge);
        }
    }
    assert(paired(all) =~= edges);
    assert(drawn@.map_values(|connection: Connection| connection@) =~= edges.map_values(
        |edge: Edge| connection_of(model, edge),
    ));
    drawn
}

/// Assembles the graph that a table is drawn as: its positioned entries as
/// nodes, and between them the connections that [`connections`] derives.
pub fn assemble<P: Copy>(table: &Vec<LogicNode<P>>) -> (drawn: Graph<P>)
    requires
        targets_in_range(table_view(table@)),
    ensures
        drawn@ == graph_of(table_view(table@)),
{
    let positioned_nodes = positioned_nodes(table);
    let count = table.len();
    proof {
        lemma_positioned_below(table_view(table@), count as nat);
    }
    let nodes = nodes(table, &positioned_nodes);
    let connections = connections(table, &positioned_nodes);
    Graph { nodes, connections }
}

/// Returns the graph of what the logic parser made of the logic files.
///
/// `parsed` is the parser's outcome: the node table, or the message it failed
/// with. A table is assembled into its graph. A failure is handed on with its
/// message unchanged: there is no graph of input that did not parse.
pub fn graph<P: Copy>(parsed: Result<Vec<LogicNode<P>>, String>) -> (drawn: Result<
    Graph<P>,
    String,
>)
    requires
        parsed matches Ok(table) ==> targets_in_range(table_view(table@)),
    ensures
        match parsed {
            Ok(table) => drawn matches Ok(graph) && graph@ == graph_of(table_view(table@)),
            Err(message) => drawn == Err::<Graph<P>, String>(message),
        },
{
    match parsed {
        Ok(table) => Ok(assemble(&table)),
        Err(message) => Err(message),
    }
}

/// Every edge of the graph is a connection of the table between two positioned
/// entries, and an edge that goes both ways is one in both directions.
pub proof fn lemma_edges_are_connections<P>(table: Seq<LogicNodeView<P>>)
    requires
        table.len() <= usize::MAX,
    ensures
        forall|k: int|
            0 <= k < derived_edges(table).len() ==> has_edge(
                table,
                (#[trigger] derived_edges(table)[k]).start,
                derived_edges(table)[k].end,
            ) && (!derived_edges(table)[k].unidirectional ==> has_edge(
                table,
                derived_edges(table)[k].end,
                derived_edges(table)[k].start,
            )),
{
    let edges = derived_edges(table);
    lemma_paired_from_candidates(candidates(table, positioned_indices(table)));
    assert forall|k: int| 0 <= k < edges.len() implies has_edge(
        table,
        (#[trigger] edges[k]).start,
        edges[k].end,
    ) && (!edges[k].unidirectional ==> has_edge(table, edges[k].end, edges[k].start)) by {
        lemma_candidates(table, edges[k].start, edges[k].end);
        lemma_candidates(table, edges[k].end, edges[k].start);
    }
}

/// Every node of the graph stands for a positioned entry of the table, and
/// both ends of every connection are positioned entries: nothing in the graph
/// stands for an entry without a position.
pub proof fn lemma_only_positioned_entries_are_drawn<P>(table: Seq<LogicNodeView<P>>)
    requires
        table.len() <= usize::MAX,
    ensures
        projected_nodes(table).len() == positioned_indices(table).len(),
        forall|i: int|
            0 <= i < projected_nodes(table).len() ==> positioned(
                table,
                positioned_indices(table)[i] as int,
            ) && #[trigger] projected_nodes(table)[i] == node_of(
                table,
                positioned_indices(table)[i] as int,
            ),
        derived_connections(table).len() == derived_edges(table).len(),
        forall|k: int|
            0 <= k < derived_connections(table).len() ==> positioned(
                table,
                derived_edges(table)[k].start as int,
            ) && positioned(table, derived_edges(table)[k].end as int)
                && #[trigger] derived_connections(table)[k] == connection_of(
                table,
                derived_edges(table)[k],
            ),
{
    lemma_positioned_below(table, table.len());
    lemma_edges_are_connections(table);
}

/// One of the nodes has this name.
pub open spec fn is_node_name<P>(nodes: Seq<NodeView<P>>, name: Seq<char>) -> bool {
    exists|i: int| 0 <= i < nodes.len() && (#[trigger] nodes[i]).name == name
}

/// The names at both ends of every connection of the graph are names of nodes
/// of the graph.
pub proof fn lemma_endpoints_are_nodes<P>(table: Seq<LogicNodeView<P>>)
    requires
        table.len() <= usize::MAX,
    ensures
        forall|k: int|
            0 <= k < derived_connections(table).len() ==> is_node_name(
                projected_nodes(table),
                (#[trigger] derived_connections(table)[k]).start,
            ) && is_node_name(projected_nodes(table), derived_connections(table)[k].end),
{
    let drawn = projected_nodes(table);
    let selected = positioned_indices(table);
    let edges = derived_edges(table);
    lemma_positioned_below(table, table.len());
    lemma_edges_are_connections(table);
    assert forall|k: int| 0 <= k < derived_connections(table).len() implies is_node_name(
        drawn,
        (#[trigger] derived_connections(table)[k]).start,
    ) && is_node_name(drawn, derived_connections(table)[k].end) by {
        let edge = edges[k];
        assert(has_edge(table, edge.start, edge.end));
        let i = choose|i: int| 0 <= i < selected.len() && #[trigger] selected[i] == edge.start as int;
        let j = choose|j: int| 0 <= j < selected.len() && #[trigger] selected[j] == edge.end as int;
        assert(drawn[i].name == table[edge.start as int].name);
        assert(drawn[j].name == table[edge.end as int].name);
    }
}

/// A connection of the graph is of kind `Branch` if and only if the entry it
/// ends at is an anchor.
pub proof fn lemma_kind_follows_target<P>(table: Seq<LogicNodeView<P>>)
    ensures
        forall|k: int|
            0 <= k < derived_connections(table).len() ==> ((#[trigger] derived_connections(
                table,
            )[k]).kind == ConnectionType::Branch <==> table[derived_edges(table)[k].end as int].anchor),
{
}

/// Where the table holds a drawable connection from `a` to `b`, the graph has
/// exactly one edge between the two. If the table holds the opposite connection
/// as well and `a` is not `b`, that edge goes both ways; otherwise it is
/// unidirectional and runs from `a` to `b`.
///
/// This is stated of entries that name each other once at most. An anchor that
/// names a target twice gives two candidates, and each is drawn.
pub proof fn lemma_one_connection_between<P>(table: Seq<LogicNodeView<P>>, a: usize, b: usize)
    requires
        table.len() <= usize::MAX,
        has_edge(table, a, b),
        names_at_most_once(table, a, b),
        names_at_most_once(table, b, a),
    ensures
        exists|k: int|
            #[trigger] only_edge_between(derived_edges(table), k, a, b) && (derived_edges(
                table,
            )[k].unidirectional <==> a == b || !has_edge(table, b, a)) && (derived_edges(
                table,
            )[k].unidirectional ==> derived_edges(table)[k].start == a && derived_edges(
                table,
            )[k].end == b),
{
    let c = candidates(table, positioned_indices(table));
    lemma_candidates(table, a, b);
    lemma_candidates(table, b, a);
    lemma_paired_between(c, a, b);
    let k = choose|k: int|
        #[trigger] only_edge_between(paired(c), k, a, b) && (paired(c)[k].unidirectional <==> a == b
            || !c.contains((b, a))) && (paired(c)[k].unidirectional ==> paired(c)[k].start == a
            && paired(c)[k].end == b);
    assert(only_edge_between(derived_edges(table), k, a, b));
}

/// In a graph of a table whose entries name no target twice, no two
/// connections run between the same two entries.
pub proof fn lemma_no_pair_twice<P>(table: Seq<LogicNodeView<P>>)
    requires
        table.len() <= usize::MAX,
        forall|a: usize, b: usize| #[trigger] names_at_most_once(table, a, b),
    ensures
        forall|j: int, k: int|
            0 <= j < derived_edges(table).len() && 0 <= k < derived_edges(table).len() && joins(
                #[trigger] derived_edges(table)[j],
                (#[trigger] derived_edges(table)[k]).start,
                derived_edges(table)[k].end,
            ) ==> j == k,
{
    let edges = derived_edges(table);
    lemma_edges_are_connections(table);
    assert forall|j: int, k: int|
        0 <= j < edges.len() && 0 <= k < edges.len() && joins(
            #[trigger] edges[j],
            (#[trigger] edges[k]).start,
            edges[k].end,
        ) implies j == k by {
        let a = edges[k].start;
        let b = edges[k].end;
        assert(names_at_most_once(table, a, b));
        assert(names_at_most_once(table, b, a));
        lemma_one_connection_between(table, a, b);
        let only = choose|only: int| #[trigger] only_edge_between(edges, only, a, b);
        assert(joins(edges[k], a, b));
        assert(j == only && k == only);
    }
}

/// Two graphs that were assembled from tables of the same content are equal
/// in content: the same nodes and the same connections, in the same order.
pub proof fn lemma_same_table_same_graph<P>(
    first_table: Seq<LogicNode<P>>,
    second_table: Seq<LogicNode<P>>,
    first: Graph<P>,
    second: Graph<P>,
)
    requires
        table_view(first_table) == table_view(second_table),
        first@ == graph_of(table_view(first_table)),
        second@ == graph_of(table_view(second_table)),
    ensures
        first@ == second@,
        first@.nodes.to_set() == second@.nodes.to_set(),
        first@.connections.to_set() == second@.connections.to_set(),
{
}

} // verus!
