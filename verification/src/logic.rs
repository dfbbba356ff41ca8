//! The node table: what the logic of an areas file amounts to once it is parsed.
//!
//! A table is an ordered list of nodes. A node is known by its place in the
//! table: the connections of an anchor name their targets by that place.

use vstd::prelude::*;

verus! {

/// One entry of the node table.
///
/// `P` is whatever the table's producer uses for a place on the map. The
/// library carries it through and never looks inside.
pub enum LogicNode<P> {
    /// A branch point. It owns the connections that leave it, each given as the
    /// table index of its target.
    Anchor { identifier: String, position: Option<P>, connections: Vec<usize> },
    /// A terminal node such as a pickup or a quest.
    Leaf { identifier: String, position: Option<P> },
}

/// The mathematical content of a [`LogicNode`].
pub struct LogicNodeView<P> {
    pub name: Seq<char>,
    pub position: Option<P>,
    pub anchor: bool,
    pub targets: Seq<usize>,
}

impl<P> View for LogicNode<P> {
    type V = LogicNodeView<P>;

    open spec fn view(&self) -> LogicNodeView<P> {
        match self {
            LogicNode::Anchor { identifier, position, connections } => LogicNodeView {
                name: identifier@,
                position: *position,
                anchor: true,
                targets: connections@,
            },
            LogicNode::Leaf { identifier, position } => LogicNodeView {
                name: identifier@,
                position: *position,
                anchor: false,
                targets: Seq::empty(),
            },
        }
    }
}

impl<P> LogicNode<P> {
    /// The node's name.
    pub fn identifier(&self) -> (name: &String)
        ensures
            name@ == self@.name,
    {
        match self {
            LogicNode::Anchor { identifier, .. } => identifier,
            LogicNode::Leaf { identifier, .. } => identifier,
        }
    }

    /// The node's place on the map, if it has one.
    pub fn position(&self) -> (position: &Option<P>)
        ensures
            *position == self@.position,
    {
        match self {
            LogicNode::Anchor { position, .. } => position,
            LogicNode::Leaf { position, .. } => position,
        }
    }

    /// Whether the node is an anchor.
    pub fn is_anchor(&self) -> (anchor: bool)
        ensures
            anchor == self@.anchor,
    {
        match self {
            LogicNode::Anchor { .. } => true,
            LogicNode::Leaf { .. } => false,
        }
    }
}

/// The table as a sequence of node contents.
pub open spec fn table_view<P>(nodes: Seq<LogicNode<P>>) -> Seq<LogicNodeView<P>> {
    nodes.map_values(|node: LogicNode<P>| node@)
}

/// Index `i` names a node of the table, and that node has a position.
pub open spec fn positioned<P>(table: Seq<LogicNodeView<P>>, i: int) -> bool {
    0 <= i < table.len() && table[i].position is Some
}

/// The indices below `n` of the table's positioned entries, in rising order.
pub open spec fn positioned_below<P>(table: Seq<LogicNodeView<P>>, n: nat) -> Seq<usize>
    decreases n,
{
    if n == 0 {
        Seq::empty()
    } else if positioned(table, n - 1) {
        positioned_below(table, (n - 1) as nat).push((n - 1) as usize)
    } else {
        positioned_below(table, (n - 1) as nat)
    }
}

/// The indices of the table's positioned entries, in rising order.
pub open spec fn positioned_indices<P>(table: Seq<LogicNodeView<P>>) -> Seq<usize> {
    positioned_below(table, table.len())
}

/// What `positioned_below` holds: exactly the positioned indices below `n`, each
/// once, in rising order.
pub proof fn lemma_positioned_below<P>(table: Seq<LogicNodeView<P>>, n: nat)
    requires
        n <= table.len(),
        table.len() <= usize::MAX,
    ensures
        forall|k: int|
            0 <= k < positioned_below(table, n).len() ==> (#[trigger] positioned_below(table, n)[k])
                < n && positioned(table, positioned_below(table, n)[k] as int),
        forall|j: int, k: int|
            0 <= j < k < positioned_below(table, n).len() ==> positioned_below(table, n)[j]
                < positioned_below(table, n)[k],
        forall|i: int|
            0 <= i < n && positioned(table, i) ==> exists|k: int|
                0 <= k < positioned_below(table, n).len() && #[trigger] positioned_below(
                    table,
                    n,
                )[k] == i,
    decreases n,
{
    if n > 0 {
        let before = positioned_below(table, (n - 1) as nat);
        let now = positioned_below(table, n);
        lemma_positioned_below(table, (n - 1) as nat);
        assert forall|i: int| 0 <= i < n && positioned(table, i) implies exists|k: int|
            0 <= k < now.len() && #[trigger] now[k] == i by {
            if i < n - 1 {
                let k = choose|k: int| 0 <= k < before.len() && #[trigger] before[k] == i;
                assert(now[k] == i);
            } else {
                assert(now[now.len() - 1] == i);
            }
        }
    }
}

/// Every connection of every node leads to a node of the table.
pub open spec fn targets_in_range<P>(table: Seq<LogicNodeView<P>>) -> bool {
    forall|i: int, k: int|
        0 <= i < table.len() && 0 <= k < table[i].targets.len() ==> (
        #[trigger] table[i].targets[k]) < table.len()
}

/// Tests whether every connection of the table leads to one of its nodes.
pub fn check_targets<P>(nodes: &Vec<LogicNode<P>>) -> (ok: bool)
    ensures
        ok == targets_in_range(table_view(nodes@)),
{
    let ghost table = table_view(nodes@);
    let mut i: usize = 0;
    while i < nodes.len()
        invariant
            i <= nodes.len(),
            table == table_view(nodes@),
            forall|a: int, k: int|
                0 <= a < i && 0 <= k < table[a].targets.len() ==> (
                #[trigger] table[a].targets[k]) < table.len(),
        decreases nodes.len() - i,
    {
        match &nodes[i] {
            LogicNode::Anchor { connections, .. } => {
                let mut k: usize = 0;
                while k < connections.len()
                    invariant
                        k <= connections.len(),
                        i < nodes.len(),
                        table == table_view(nodes@),
                        table[i as int].targets == connections@,
                        forall|j: int| 0 <= j < k ==> (#[trigger] connections@[j]) < nodes.len(),
                    decreases connections.len() - k,
                {
                    if connections[k] >= nodes.len() {
                        assert(table[i as int].targets[k as int] >= table.len());
                        return false;
                    }
                    k += 1;
                }
            },
            LogicNode::Leaf { .. } => {},
        }
        i += 1;
    }
    true
}

} // verus!
