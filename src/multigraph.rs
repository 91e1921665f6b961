//! Export of a netlist as a directed multigraph for graph libraries and
//! visualization: one graph node per circuit node, one edge per wire, and a
//! pseudo-node per top-level output with a pseudo-edge from its driver.

use vstd::prelude::*;
use vstd::string::*;
use crate::circuit::{Instantiable, Net, emitted};
use crate::graph::fan_edges;
use crate::netlist::{
    Connection, NetRef, Netlist, NetlistError, NetlistView, conns, lemma_conns_valid, nets_at, op_root,
    op_secondary, valid_driven, verify_result, well_formed,
};
use crate::text::owned;

verus! {

/// petgraph's `Graph`, held opaque: its contents are known through
/// `graph_nodes` and `graph_edges`.
#[verifier::external_type_specification]
#[verifier::external_body]
#[verifier::reject_recursive_types(N)]
#[verifier::reject_recursive_types(E)]
#[verifier::reject_recursive_types(Ty)]
#[verifier::reject_recursive_types(Ix)]
pub struct ExGraph<N, E, Ty, Ix>(petgraph::graph::Graph<N, E, Ty, Ix>);

/// petgraph's `Directed` marker type.
#[verifier::external_type_specification]
#[verifier::external_body]
pub struct ExDirected(petgraph::Directed);

/// A node of the exported graph.
#[derive(Debug, Clone)]
pub enum Node {
    /// A circuit node
    NetRef(NetRef),
    /// A pseudo-node, such as a top-level output
    Pseudo(String),
}

/// An edge of the exported graph.
#[derive(Debug, Clone)]
pub enum Edge {
    /// A wire of the circuit
    Connection(Connection),
    /// A pseudo-edge, such as the one into a top-level output
    Pseudo(Net),
}

/// The graph type of the export.
pub type ExportGraph = petgraph::graph::Graph<Node, Edge, petgraph::Directed, u32>;

/// What a graph node stands for: the index of a circuit node, or `None`
/// for a pseudo-node.
pub open spec fn node_key(n: Node) -> Option<nat> {
    match n {
        Node::NetRef(r) => Some(r@.0),
        Node::Pseudo(_) => None,
    }
}

/// The nodes of a graph, in insertion order, as their keys.
pub uninterp spec fn graph_nodes(g: ExportGraph) -> Seq<Option<nat>>;

/// The edges of a graph, in insertion order, as their end points.
pub uninterp spec fn graph_edges(g: ExportGraph) -> Seq<(nat, nat)>;

/// Relies on petgraph's `Graph::new`: the graph starts with no node and no edge.
#[verifier::external_body]
fn graph_new() -> (r: ExportGraph)
    ensures
        graph_nodes(r) == Seq::<Option<nat>>::empty(),
        graph_edges(r) == Seq::<(nat, nat)>::empty(),
{
    petgraph::graph::Graph::new()
}

/// Relies on petgraph's `Graph::add_node`: the node is appended and its
/// index is the former node count. It panics only at the `u32` index limit.
#[verifier::external_body]
fn graph_add_node(g: &mut ExportGraph, weight: Node) -> (r: usize)
    requires
        graph_nodes(*old(g)).len() + 1 < u32::MAX,
    ensures
        graph_nodes(*final(g)) == graph_nodes(*old(g)).push(node_key(weight)),
        graph_edges(*final(g)) == graph_edges(*old(g)),
        r == graph_nodes(*old(g)).len(),
{
    g.add_node(weight).index()
}

/// Relies on petgraph's `Graph::add_edge`: the edge from `a` to `b` is
/// appended, parallel edges included. It panics only when an end point is
/// missing or at the `u32` index limit.
#[verifier::external_body]
fn graph_add_edge(g: &mut ExportGraph, a: usize, b: usize, weight: Edge)
    requires
        a < graph_nodes(*old(g)).len(),
        b < graph_nodes(*old(g)).len(),
        graph_edges(*old(g)).len() + 1 < u32::MAX,
    ensures
        graph_edges(*final(g)) == graph_edges(*old(g)).push((a as nat, b as nat)),
        graph_nodes(*final(g)) == graph_nodes(*old(g)),
{
    g.add_edge(petgraph::graph::NodeIndex::new(a), petgraph::graph::NodeIndex::new(b), weight);
}

/// Relies on petgraph's `Graph::node_count`: the number of nodes.
#[verifier::external_body]
fn graph_node_count(g: &ExportGraph) -> (r: usize)
    ensures
        r == graph_nodes(*g).len(),
{
    g.node_count()
}

/// Relies on petgraph's `Graph::edge_count`: the number of edges.
#[verifier::external_body]
fn graph_edge_count(g: &ExportGraph) -> (r: usize)
    ensures
        r == graph_edges(*g).len(),
{
    g.edge_count()
}

/// The graph nodes of the export of `v`: the circuit nodes in store order,
/// then one pseudo-node per top-level output.
pub open spec fn export_nodes<I>(v: NetlistView<I>) -> Seq<Option<nat>> {
    Seq::new(v.nodes.len(), |i: int| Some(i as nat)) + Seq::new(v.outputs.len(), |k: int| None::<nat>)
}

/// The graph edges of the export of `v`: each wire from its driver to its
/// consumer, in connection order, then one edge from the driver of each
/// top-level output to that output's pseudo-node.
pub open spec fn export_edges<I>(v: NetlistView<I>) -> Seq<(nat, nat)> {
    fan_edges(v).map_values(|e: crate::graph::FanEdge| (e.1.0, e.2.0)) + Seq::new(
        v.outputs.len(),
        |k: int| (op_root(v.outputs[k].0), (v.nodes.len() + k) as nat),
    )
}

/// A directed multigraph of a netlist.
#[derive(Debug)]
pub struct MultiDiGraph {
    graph: ExportGraph,
}

impl MultiDiGraph {
    /// The nodes of the exported graph, as their keys.
    pub closed spec fn nodes(&self) -> Seq<Option<nat>> {
        graph_nodes(self.graph)
    }

    /// The edges of the exported graph, as their end points.
    pub closed spec fn edges(&self) -> Seq<(nat, nat)> {
        graph_edges(self.graph)
    }

    /// Builds the export of `netlist`. The netlist must pass
    /// [Netlist::verify] (names unique, so that each node is its own);
    /// otherwise the error of `verify` is returned.
    #[verifier::spinoff_prover]
    pub fn build<I: Instantiable>(netlist: &Netlist<I>) -> (r: Result<Self, NetlistError>)
        requires
            netlist.wf(),
            netlist@.nodes.len() + netlist@.outputs.len() + 1 < u32::MAX,
            fan_edges(netlist@).len() + netlist@.outputs.len() + 1 < u32::MAX,
        ensures
            r is Err <==> !well_formed(netlist@),
            r matches Err(e) ==> verify_result(netlist@) == Err::<(), NetlistError>(e),
            r matches Ok(m) ==> m.nodes() == export_nodes(netlist@) && m.edges() == export_edges(netlist@),
    {
        match netlist.verify() {
            Err(e) => return Err(e),
            Ok(()) => {},
        }
        let ghost v = netlist@;
        let mut g = graph_new();
        let objs = netlist.objects();
        let mut i: usize = 0;
        while i < objs.len()
            invariant
                objs@.len() == v.nodes.len(),
                v.nodes.len() + v.outputs.len() + 1 < u32::MAX,
                forall|q: int| 0 <= q < objs@.len() ==> (#[trigger] objs@[q])@ == (q as nat, v.epoch),
                i <= objs@.len(),
                graph_nodes(g) == Seq::new(i as nat, |q: int| Some(q as nat)),
                graph_edges(g) == Seq::<(nat, nat)>::empty(),
            decreases objs@.len() - i,
        {
            graph_add_node(&mut g, Node::NetRef(objs[i]));
            proof {
                assert(graph_nodes(g) =~= Seq::new((i + 1) as nat, |q: int| Some(q as nat)));
            }
            i = i + 1;
        }
        let cs = netlist.connections();
        proof {
            netlist.lemma_wf_view();
            lemma_conns_valid(v, v.nodes.len() as int);
        }
        let ghost cv = conns(v, v.nodes.len() as int);
        let ghost wires = fan_edges(v).map_values(|e: crate::graph::FanEdge| (e.1.0, e.2.0));
        let mut k: usize = 0;
        while k < cs.len()
            invariant
                netlist.wf(),
                v == netlist@,
                cs@.map_values(|c: Connection| c@) == cv,
                cv == conns(v, v.nodes.len() as int),
                wires == fan_edges(v).map_values(|e: crate::graph::FanEdge| (e.1.0, e.2.0)),
                forall|q: int| 0 <= q < cv.len() ==> valid_driven(v, (#[trigger] cv[q]).0),
                forall|q: int| 0 <= q < cv.len() ==> (#[trigger] cv[q]).1.0 < v.nodes.len(),
                fan_edges(v).len() + v.outputs.len() + 1 < u32::MAX,
                v.nodes.len() + v.outputs.len() + 1 < u32::MAX,
                graph_nodes(g) == Seq::new(v.nodes.len(), |q: int| Some(q as nat)),
                k <= cs@.len(),
                graph_edges(g) == wires.subrange(0, k as int),
            decreases cs@.len() - k,
        {
            let c = cs[k];
            proof {
                assert(c@ == cv[k as int]);
            }
            let src = c.src().unwrap().get_index(netlist);
            let dst = c.target().unwrap().get_index(netlist);
            graph_add_edge(&mut g, src, dst, Edge::Connection(c));
            proof {
                assert(wires[k as int] == (cv[k as int].0.0, cv[k as int].1.0));
                assert(graph_edges(g) =~= wires.subrange(0, k + 1));
            }
            k = k + 1;
        }
        proof {
            assert(wires.subrange(0, cs@.len() as int) =~= wires);
        }
        let outs = netlist.outputs();
        let n = objs.len();
        let mut q: usize = 0;
        while q < outs.len()
            invariant
                netlist.wf(),
                v == netlist@,
                n == v.nodes.len(),
                v.nodes.len() + v.outputs.len() + 1 < u32::MAX,
                fan_edges(v).len() + v.outputs.len() + 1 < u32::MAX,
                outs@.len() == v.outputs.len(),
                forall|p: int| 0 <= p < outs@.len() ==> (#[trigger] outs@[p]).0@ == (op_root(v.outputs[p].0), op_secondary(v.outputs[p].0), v.epoch)
                    && outs@[p].1@ == v.outputs[p].1,
                q <= outs@.len(),
                graph_nodes(g) == export_nodes(v).subrange(0, (n + q) as int),
                graph_edges(g) == export_edges(v).subrange(0, (wires.len() + q) as int),
                wires == fan_edges(v).map_values(|e: crate::graph::FanEdge| (e.1.0, e.2.0)),
            decreases outs@.len() - q,
        {
            proof {
                netlist.lemma_output_valid(q as int);
            }
            let label = owned("Output(").concat(outs[q].1.emit_name().as_str()).concat(")");
            let at = graph_add_node(&mut g, Node::Pseudo(label));
            let root = outs[q].0.unwrap().get_index(netlist);
            let driver = outs[q].0.as_net(netlist).clone();
            graph_add_edge(&mut g, root, at, Edge::Pseudo(driver));
            proof {
                assert(graph_nodes(g) =~= export_nodes(v).subrange(0, (n + q + 1) as int));
                assert(graph_edges(g) =~= export_edges(v).subrange(0, (wires.len() + q + 1) as int));
            }
            q = q + 1;
        }
        proof {
            assert(export_nodes(v).subrange(0, (n + outs@.len()) as int) =~= export_nodes(v));
            assert(export_edges(v).subrange(0, (wires.len() + outs@.len()) as int) =~= export_edges(v));
        }
        Ok(MultiDiGraph { graph: g })
    }

    /// Returns the graph built by this analysis
    pub fn get_graph(&self) -> (r: &ExportGraph)
        ensures
            graph_nodes(*r) == self.nodes(),
            graph_edges(*r) == self.edges(),
    {
        &self.graph
    }

    /// Returns the number of nodes of the graph, pseudo-nodes included.
    pub fn node_count(&self) -> (r: usize)
        ensures
            r == self.nodes().len(),
    {
        graph_node_count(&self.graph)
    }

    /// Returns the number of edges of the graph, pseudo-edges included.
    pub fn edge_count(&self) -> (r: usize)
        ensures
            r == self.edges().len(),
    {
        graph_edge_count(&self.graph)
    }
}

} // verus!
