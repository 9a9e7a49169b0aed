//! Node tables as graphs.

use petgraph::graph::NodeIndex;
use petgraph::Graph;
use vstd::prelude::*;
use crate::node::{table, Node, NodeView};

verus! {

/// `Graph` of the `petgraph` crate.
#[verifier::external_type_specification]
#[verifier::external_body]
#[verifier::reject_recursive_types(N)]
#[verifier::reject_recursive_types(E)]
#[verifier::reject_recursive_types(Ty)]
#[verifier::reject_recursive_types(Ix)]
pub struct ExGraph<N, E, Ty, Ix>(petgraph::Graph<N, E, Ty, Ix>);

/// `Directed` of the `petgraph` crate.
#[verifier::external_type_specification]
#[verifier::external_body]
pub struct ExDirected(petgraph::Directed);

/// The weights of a graph's nodes, in the order of their indices.
pub uninterp spec fn graph_nodes(graph: Graph<Node, ()>) -> Seq<NodeView>;

/// The ends of a graph's edges, source first, in the order of their indices.
pub uninterp spec fn graph_edges(graph: Graph<Node, ()>) -> Seq<(usize, usize)>;

/// `Graph::new` of the `petgraph` crate: a graph without nodes and edges.
#[verifier::external_body]
fn new_graph() -> (graph: Graph<Node, ()>)
    ensures
        graph_nodes(graph) == Seq::<NodeView>::empty(),
        graph_edges(graph) == Seq::<(usize, usize)>::empty(),
{
    Graph::new()
}

/// `Graph::add_node` of the `petgraph` crate: the node gets the next index,
/// and the edges stay as they are. The call panics where the graph already
/// holds as many nodes as there are 32-bit indices but one.
#[verifier::external_body]
fn add_graph_node(graph: &mut Graph<Node, ()>, node: Node) -> (index: usize)
    requires
        graph_nodes(*old(graph)).len() < u32::MAX,
    ensures
        graph_nodes(*final(graph)) == graph_nodes(*old(graph)).push(node@),
        graph_edges(*final(graph)) == graph_edges(*old(graph)),
        index == graph_nodes(*old(graph)).len(),
{
    graph.add_node(node).index()
}

/// `Graph::add_edge` of the `petgraph` crate: the edge gets the next index,
/// and the nodes stay as they are. The call panics where one of the nodes
/// does not exist, and where the graph already holds as many edges as there
/// are 32-bit indices but one.
#[verifier::external_body]
fn add_graph_edge(graph: &mut Graph<Node, ()>, from: usize, to: usize)
    requires
        from < graph_nodes(*old(graph)).len(),
        to < graph_nodes(*old(graph)).len(),
        graph_nodes(*old(graph)).len() <= u32::MAX,
        graph_edges(*old(graph)).len() < u32::MAX,
    ensures
        graph_nodes(*final(graph)) == graph_nodes(*old(graph)),
        graph_edges(*final(graph)) == graph_edges(*old(graph)).push((from, to)),
{
    graph.add_edge(NodeIndex::new(from), NodeIndex::new(to), ());
}

/// The edges from a node to its first `k` children.
pub open spec fn child_edges(node: NodeView, k: nat) -> Seq<(usize, usize)> {
    Seq::new(k, |i: int| (node.id, node.children[i]))
}

/// The edges from the nodes of a table to their children, in order.
pub open spec fn table_edges(t: Seq<NodeView>) -> Seq<(usize, usize)>
    decreases t.len(),
{
    if t.len() == 0 {
        Seq::empty()
    } else {
        table_edges(t.drop_last()) + child_edges(t.last(), t.last().children.len())
    }
}

proof fn lemma_edges_take(t: Seq<NodeView>, k: int)
    requires
        0 <= k <= t.len(),
    ensures
        table_edges(t.take(k)).len() <= table_edges(t).len(),
    decreases t.len() - k,
{
    if k < t.len() {
        lemma_edges_take(t, k + 1);
        assert(t.take(k + 1).drop_last() =~= t.take(k));
    } else {
        assert(t.take(k) =~= t);
    }
}

/// The graph of a node table: a node for every node of the table, at its
/// position, and an edge from every node to each of its children.
pub fn build_petgraph_from_nodes(nodes: &[Node]) -> (graph: Graph<Node, ()>)
    requires
        nodes.len() <= u32::MAX,
        table_edges(table(nodes@)).len() <= u32::MAX,
        forall|i: int| 0 <= i < nodes.len() ==> (#[trigger] nodes@[i]).id < nodes.len(),
        forall|i: int, k: int|
            0 <= i < nodes.len() && 0 <= k < nodes@[i].children.len()
                ==> #[trigger] nodes@[i].children@[k] < nodes.len(),
    ensures
        graph_nodes(graph) == table(nodes@),
        graph_edges(graph) == table_edges(table(nodes@)),
        graph_nodes(graph).len() == nodes.len(),
        forall|i: int| 0 <= i < nodes.len() ==> #[trigger] graph_nodes(graph)[i] == nodes@[i]@,
{
    let ghost t = table(nodes@);
    let mut graph = new_graph();
    let mut i: usize = 0;
    while i < nodes.len()
        invariant
            t == table(nodes@),
            nodes.len() <= u32::MAX,
            i <= nodes.len(),
            graph_nodes(graph) == t.take(i as int),
            graph_edges(graph) == Seq::<(usize, usize)>::empty(),
        decreases nodes.len() - i,
    {
        add_graph_node(&mut graph, nodes[i].clone());
        i = i + 1;
        assert(t.take(i as int) =~= t.take(i - 1).push(t[i - 1]));
    }
    assert(t.take(i as int) =~= t);
    let mut i: usize = 0;
    assert(t.take(0) =~= Seq::empty());
    while i < nodes.len()
        invariant
            t == table(nodes@),
            nodes.len() <= u32::MAX,
            table_edges(t).len() <= u32::MAX,
            forall|i: int| 0 <= i < nodes.len() ==> (#[trigger] nodes@[i]).id < nodes.len(),
            forall|i: int, k: int|
                0 <= i < nodes.len() && 0 <= k < nodes@[i].children.len()
                    ==> #[trigger] nodes@[i].children@[k] < nodes.len(),
            i <= nodes.len(),
            graph_nodes(graph) == t,
            graph_edges(graph) == table_edges(t.take(i as int)),
        decreases nodes.len() - i,
    {
        let ghost done = table_edges(t.take(i as int));
        proof {
            lemma_edges_take(t, i + 1);
            assert(t.take(i + 1).drop_last() =~= t.take(i as int));
            assert(t.take(i + 1).last() == nodes@[i as int]@);
        }
        let node = &nodes[i];
        assert(node.id < nodes.len());
        let mut k: usize = 0;
        assert(done + child_edges(node@, 0) =~= done);
        while k < node.children.len()
            invariant
                t == table(nodes@),
                nodes.len() <= u32::MAX,
                i < nodes.len(),
                node == nodes@[i as int],
                node.id < nodes.len(),
                forall|i: int, k: int|
                    0 <= i < nodes.len() && 0 <= k < nodes@[i].children.len()
                        ==> #[trigger] nodes@[i].children@[k] < nodes.len(),
                k <= node.children.len(),
                done.len() + node.children.len() <= u32::MAX,
                graph_nodes(graph) == t,
                graph_edges(graph) == done + child_edges(node@, k as nat),
            decreases node.children.len() - k,
        {
            let child = node.children[k];
            assert(nodes@[i as int].children@[k as int] < nodes.len());
            add_graph_edge(&mut graph, node.id, child);
            k = k + 1;
            assert(child_edges(node@, k as nat) =~= child_edges(node@, (k - 1) as nat).push(
                (node.id, child),
            ));
            assert(done + child_edges(node@, k as nat) =~= (done + child_edges(
                node@,
                (k - 1) as nat,
            )).push((node.id, child)));
        }
        i = i + 1;
    }
    assert(t.take(i as int) =~= t);
    graph
}

/// The edges of a table are those from every node to each of its children, in
/// the order of the nodes and, for each node, in the order of its children.
pub proof fn law_edges_of_table(t: Seq<NodeView>)
    ensures
        table_edges(t) == Seq::new(
            t.len(),
            |i: int| Seq::new(t[i].children.len(), |k: int| (t[i].id, t[i].children[k])),
        ).flatten(),
    decreases t.len(),
{
    let blocks = Seq::new(
        t.len(),
        |i: int| Seq::new(t[i].children.len(), |k: int| (t[i].id, t[i].children[k])),
    );
    if t.len() > 0 {
        let rest = t.drop_last();
        law_edges_of_table(rest);
        let before = Seq::new(
            rest.len(),
            |i: int| Seq::new(rest[i].children.len(), |k: int| (rest[i].id, rest[i].children[k])),
        );
        let last = child_edges(t.last(), t.last().children.len());
        assert forall|i: int| 0 <= i < before.len() implies before[i] == blocks[i] by {
            assert(before[i] =~= blocks[i]);
        }
        assert(blocks.last() =~= last);
        assert(blocks =~= before.push(last));
        before.lemma_flatten_push(last);
    }
}

/// There is an edge from one node to another exactly where the one lists the
/// other as a child.
pub proof fn law_edges_are_children(t: Seq<NodeView>, from: usize, to: usize)
    ensures
        table_edges(t).contains((from, to)) <==> exists|i: int|
            0 <= i < t.len() && (#[trigger] t[i]).id == from && t[i].children.contains(to),
    decreases t.len(),
{
    if t.len() > 0 {
        let rest = t.drop_last();
        law_edges_are_children(rest, from, to);
        let before = table_edges(rest);
        let last = child_edges(t.last(), t.last().children.len());
        let all = table_edges(t);
        assert(all == before + last);
        let has = exists|i: int|
            0 <= i < t.len() && (#[trigger] t[i]).id == from && t[i].children.contains(to);
        if before.contains((from, to)) {
            let x = before.index_of((from, to));
            assert(all[x] == (from, to));
            let i = choose|i: int|
                0 <= i < rest.len() && (#[trigger] rest[i]).id == from && rest[i].children.contains(
                    to,
                );
            assert(t[i].id == from && t[i].children.contains(to));
        }
        if t.last().id == from && t.last().children.contains(to) {
            let k = t.last().children.index_of(to);
            assert(last[k] == (from, to));
            assert(all[before.len() + k] == (from, to));
            assert(t[t.len() - 1].id == from);
        }
        if all.contains((from, to)) {
            let x = all.index_of((from, to));
            if x < before.len() {
                assert(before[x] == (from, to));
            } else {
                assert(last[x - before.len()] == (from, to));
                assert(t.last().children[x - before.len()] == to);
                assert(t[t.len() - 1].id == from);
            }
        }
        if has {
            let i = choose|i: int|
                0 <= i < t.len() && (#[trigger] t[i]).id == from && t[i].children.contains(to);
            if i < rest.len() {
                assert(rest[i].id == from && rest[i].children.contains(to));
            }
        }
    }
}

} // verus!
