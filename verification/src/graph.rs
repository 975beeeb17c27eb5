//! The dependency graph: its nodes, the boundary to the graph library that
//! stores it, and the picture of it that the algorithms work on.

use crate::predicate::clone_extra;
use crate::universal_marker::UniversalMarker;
use petgraph::graph::{EdgeIndex, NodeIndex};
use petgraph::visit::EdgeRef;
use petgraph::{Directed, Direction, Graph};
use uv_normalize::ExtraName;
use vstd::prelude::*;

verus! {

/// `petgraph::Graph`: nodes and edges with a weight each, both numbered from
/// zero without gaps.
#[verifier::external_type_specification]
#[verifier::external_body]
#[verifier::reject_recursive_types(N)]
#[verifier::reject_recursive_types(E)]
#[verifier::reject_recursive_types(Ty)]
#[verifier::reject_recursive_types(Ix)]
pub struct ExGraph<N, E, Ty, Ix>(Graph<N, E, Ty, Ix>);

/// `petgraph::Directed`: the mark of a graph whose edges have a direction.
#[verifier::external_type_specification]
#[verifier::external_body]
pub struct ExDirected(Directed);

/// A node of the dependency graph: the root, or a package, possibly together
/// with one of its extras.
#[derive(Debug, PartialEq, Eq, Hash)]
pub enum ResolutionGraphNode {
    /// The root of the resolution, or a stand-in for a set of requirements
    /// that no edge reaches.
    Root,
    /// A package. With an extra, the node stands for the package with that
    /// extra switched on.
    Package { extra: Option<ExtraName> },
}

impl Clone for ResolutionGraphNode {
    fn clone(&self) -> (copy: Self)
        ensures
            copy == *self,
    {
        match self {
            ResolutionGraphNode::Root => ResolutionGraphNode::Root,
            ResolutionGraphNode::Package { extra: Some(extra) } => ResolutionGraphNode::Package {
                extra: Some(clone_extra(extra)),
            },
            ResolutionGraphNode::Package { extra: None } => ResolutionGraphNode::Package {
                extra: None,
            },
        }
    }
}

impl ResolutionGraphNode {
    /// The extra that this node switches on, if any.
    pub open spec fn spec_extra(self) -> Option<ExtraName> {
        match self {
            ResolutionGraphNode::Root => None,
            ResolutionGraphNode::Package { extra } => extra,
        }
    }

    /// The extra that this node switches on, if any.
    pub fn extra(&self) -> (r: Option<&ExtraName>)
        ensures
            r matches Some(e) ==> self.spec_extra() == Some(*e),
            r is None ==> self.spec_extra() is None,
    {
        match self {
            ResolutionGraphNode::Root => None,
            ResolutionGraphNode::Package { extra } => extra.as_ref(),
        }
    }
}

/// The dependency graph that the library works on.
pub type DependencyGraph = Graph<ResolutionGraphNode, UniversalMarker>;

/// The weights of the nodes of a graph, by index.
pub uninterp spec fn graph_nodes(graph: DependencyGraph) -> Seq<ResolutionGraphNode>;

/// The source and the target of each edge of a graph, by index.
pub uninterp spec fn graph_endpoints(graph: DependencyGraph) -> Seq<(usize, usize)>;

/// The weights of the edges of a graph, by index.
pub uninterp spec fn graph_weights(graph: DependencyGraph) -> Seq<UniversalMarker>;

/// The indices of the edges that leave a node, in the order in which
/// `Graph::edges_directed` walks them.
pub uninterp spec fn graph_outgoing(graph: DependencyGraph, node: usize) -> Seq<usize>;

/// An edge of the dependency graph.
#[derive(Debug, Clone, Copy)]
pub struct Edge {
    /// The index of the node that the edge leaves.
    pub source: usize,
    /// The index of the node that the edge enters.
    pub target: usize,
    /// The condition under which the edge is followed.
    pub weight: UniversalMarker,
}

/// What the algorithms see of a graph: for each node the extra that it
/// switches on, the edges by index, and for each node the indices of the edges
/// that leave it, in walking order.
pub struct GraphView {
    /// The extra of each node, by index.
    pub extras: Seq<Option<ExtraName>>,
    /// The edges, by index.
    pub edges: Seq<Edge>,
    /// For each node, the indices of the edges that leave it, as they are
    /// walked.
    pub outgoing: Seq<Seq<usize>>,
}

impl GraphView {
    /// `walk` lists each edge that leaves `node` once, and no other edge.
    pub open spec fn is_walk_from(self, node: usize, walk: Seq<usize>) -> bool {
        &&& walk.no_duplicates()
        &&& forall|i: int|
            0 <= i < walk.len() ==> (#[trigger] walk[i]) < self.edges.len()
                && self.edges[walk[i] as int].source == node
        &&& forall|e: usize|
            e < self.edges.len() && (#[trigger] self.edges[e as int]).source == node
                ==> walk.contains(e)
    }

    /// Every edge joins two nodes of the graph, and every node comes with the
    /// walk of the edges that leave it.
    pub open spec fn wf(self) -> bool {
        &&& self.nodes() <= usize::MAX
        &&& self.edges.len() <= usize::MAX
        &&& self.outgoing.len() == self.nodes()
        &&& forall|e: int|
            0 <= e < self.edges.len() ==> (#[trigger] self.edges[e]).source < self.nodes()
                && self.edges[e].target < self.nodes()
        &&& forall|n: usize|
            n < self.nodes() ==> self.is_walk_from(n, #[trigger] self.outgoing[n as int])
    }

    /// The number of nodes.
    pub open spec fn nodes(self) -> nat {
        self.extras.len()
    }

    /// A node is a root if no edge enters it.
    pub open spec fn is_root(self, node: usize) -> bool {
        forall|e: int| 0 <= e < self.edges.len() ==> (#[trigger] self.edges[e]).target != node
    }
}

/// The picture of a graph.
pub open spec fn view_of(graph: DependencyGraph) -> GraphView {
    GraphView {
        extras: Seq::new(graph_nodes(graph).len(), |n: int| graph_nodes(graph)[n].spec_extra()),
        edges: Seq::new(
            graph_endpoints(graph).len(),
            |e: int|
                Edge {
                    source: graph_endpoints(graph)[e].0,
                    target: graph_endpoints(graph)[e].1,
                    weight: graph_weights(graph)[e],
                },
        ),
        outgoing: Seq::new(graph_nodes(graph).len(), |n: int| graph_outgoing(graph, n as usize)),
    }
}

/// `Graph::node_count`: the number of nodes.
#[verifier::external_body]
pub(crate) fn node_count(graph: &DependencyGraph) -> (n: usize)
    ensures
        n == graph_nodes(*graph).len(),
{
    graph.node_count()
}

/// `Graph::edge_count`: the number of edges, each of which has two endpoints
/// and a weight.
#[verifier::external_body]
pub(crate) fn edge_count(graph: &DependencyGraph) -> (n: usize)
    ensures
        n == graph_endpoints(*graph).len(),
        n == graph_weights(*graph).len(),
{
    graph.edge_count()
}

/// `Graph::raw_edges` at one index: the source, the target and the weight of
/// that edge. Both endpoints are nodes of the graph.
#[verifier::external_body]
pub(crate) fn edge_at(graph: &DependencyGraph, edge: usize) -> (e: Edge)
    requires
        edge < graph_endpoints(*graph).len(),
    ensures
        e.source == graph_endpoints(*graph)[edge as int].0,
        e.target == graph_endpoints(*graph)[edge as int].1,
        e.weight == graph_weights(*graph)[edge as int],
        e.source < graph_nodes(*graph).len(),
        e.target < graph_nodes(*graph).len(),
{
    let raw = &graph.raw_edges()[edge];
    Edge { source: raw.source().index(), target: raw.target().index(), weight: raw.weight }
}

/// `Graph::edges_directed` with `Direction::Outgoing`: the walk over the edges
/// that leave a node. It yields each such edge once, and no other edge.
#[verifier::external_body]
pub(crate) fn outgoing_edges(graph: &DependencyGraph, node: usize) -> (walk: Vec<usize>)
    requires
        node < graph_nodes(*graph).len(),
    ensures
        walk@ == graph_outgoing(*graph, node),
        view_of(*graph).is_walk_from(node, walk@),
{
    graph
        .edges_directed(NodeIndex::new(node), Direction::Outgoing)
        .map(|edge| edge.id().index())
        .collect()
}

/// Indexing a `Graph` by a `NodeIndex`: the weight of that node.
#[verifier::external_body]
pub(crate) fn node_weight(graph: &DependencyGraph, node: usize) -> (weight: &ResolutionGraphNode)
    requires
        node < graph_nodes(*graph).len(),
    ensures
        *weight == graph_nodes(*graph)[node as int],
{
    &graph[NodeIndex::new(node)]
}

/// Assigning through the index of a `Graph` by an `EdgeIndex`: the weight of
/// that edge is replaced, and nothing else of the graph changes.
#[verifier::external_body]
pub(crate) fn set_edge_weight(graph: &mut DependencyGraph, edge: usize, weight: UniversalMarker)
    requires
        edge < graph_weights(*old(graph)).len(),
    ensures
        graph_weights(*final(graph)) == graph_weights(*old(graph)).update(edge as int, weight),
        graph_nodes(*final(graph)) == graph_nodes(*old(graph)),
        graph_endpoints(*final(graph)) == graph_endpoints(*old(graph)),
        forall|node: usize| graph_outgoing(*final(graph), node) == graph_outgoing(*old(graph), node),
{
    graph[EdgeIndex::new(edge)] = weight;
}

/// A copy of what the algorithms need of a graph.
pub struct Adjacency {
    extras: Vec<Option<ExtraName>>,
    edges: Vec<Edge>,
    outgoing: Vec<Vec<usize>>,
}

impl View for Adjacency {
    type V = GraphView;

    closed spec fn view(&self) -> GraphView {
        GraphView {
            extras: self.extras@,
            edges: self.edges@,
            outgoing: Seq::new(self.outgoing@.len(), |n: int| self.outgoing@[n]@),
        }
    }
}

impl Adjacency {
    /// The number of nodes.
    pub fn node_count(&self) -> (n: usize)
        ensures
            n == self@.nodes(),
    {
        self.extras.len()
    }

    /// The number of edges.
    pub fn edge_count(&self) -> (n: usize)
        ensures
            n == self@.edges.len(),
    {
        self.edges.len()
    }

    /// The extra that a node switches on, if any.
    pub fn extra(&self, node: usize) -> (extra: &Option<ExtraName>)
        requires
            node < self@.nodes(),
        ensures
            *extra == self@.extras[node as int],
    {
        &self.extras[node]
    }

    /// The edge with the given index.
    pub fn edge(&self, edge: usize) -> (e: Edge)
        requires
            edge < self@.edges.len(),
        ensures
            e == self@.edges[edge as int],
    {
        self.edges[edge]
    }

    /// The walk over the edges that leave a node.
    pub fn outgoing(&self, node: usize) -> (walk: &Vec<usize>)
        requires
            node < self@.outgoing.len(),
        ensures
            walk@ == self@.outgoing[node as int],
    {
        &self.outgoing[node]
    }

    /// Copies the edges of a graph and, for each node, its extra and the walk
    /// over the edges that leave it.
    pub fn of(graph: &DependencyGraph) -> (copy: Adjacency)
        ensures
            copy@ == view_of(*graph),
            copy@.wf(),
    {
        let ghost view = view_of(*graph);
        let nodes = node_count(graph);
        let count = edge_count(graph);
        let mut edges: Vec<Edge> = Vec::with_capacity(count);
        let mut e: usize = 0;
        while e < count
            invariant
                e <= count,
                count == graph_endpoints(*graph).len(),
                nodes == graph_nodes(*graph).len(),
                view == view_of(*graph),
                edges@.len() == e,
                forall|i: int| 0 <= i < e ==> edges@[i] == view.edges[i],
                forall|i: int|
                    0 <= i < e ==> (#[trigger] view.edges[i]).source < nodes && view.edges[i].target
                        < nodes,
            decreases count - e,
        {
            let edge = edge_at(graph, e);
            edges.push(edge);
            e += 1;
        }
        assert(edges@ =~= view.edges);
        let mut extras: Vec<Option<ExtraName>> = Vec::with_capacity(nodes);
        let mut outgoing: Vec<Vec<usize>> = Vec::with_capacity(nodes);
        let mut n: usize = 0;
        while n < nodes
            invariant
                n <= nodes,
                nodes == graph_nodes(*graph).len(),
                view == view_of(*graph),
                extras@.len() == n,
                outgoing@.len() == n,
                forall|i: int| 0 <= i < n ==> extras@[i] == view.extras[i],
                forall|i: int| 0 <= i < n ==> (#[trigger] outgoing@[i])@ == view.outgoing[i],
                forall|i: usize| i < n ==> view.is_walk_from(i, #[trigger] view.outgoing[i as int]),
            decreases nodes - n,
        {
            let extra = match node_weight(graph, n).extra() {
                Some(extra) => Some(clone_extra(extra)),
                None => None,
            };
            extras.push(extra);
            let walk = outgoing_edges(graph, n);
            outgoing.push(walk);
            n += 1;
        }
        let copy = Adjacency { extras, edges, outgoing };
        assert(copy@.extras =~= view.extras);
        assert(copy@.outgoing =~= view.outgoing);
        copy
    }
}

} // verus!
