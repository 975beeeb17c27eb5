//! Simplifies the conflict markers on the edges of a dependency graph with
//! the extras that are known to be switched on where the edge is followed.
//!
//! Given an edge like `foo[x1] -> bar`, it is known that `x1` is switched on.
//! A conflict marker further down that tests for `x1` can then do without
//! that test. The extras are gathered in one pass over the graph, in which
//! every node is taken up once, when it is first met. What is known at a node
//! that several edges enter therefore depends on the order of the pass: an
//! extra that one of these edges brings is known at the node only if that
//! edge was followed before the node was taken up, and it then counts as
//! known further down, whichever edge led to the node.

use crate::assumed::{keeps_meaning, law_simplified_graph_keeps_meaning};
use crate::graph::{
    edge_count, graph_endpoints, graph_nodes, graph_outgoing, graph_weights, set_edge_weight,
    view_of, Adjacency, DependencyGraph, Edge, GraphView,
};
use crate::predicate::{clone_extra, marker_is_false, marker_is_true, same_extra};
use crate::reachability::{find_roots, roots, roots_below};
use crate::universal_marker::UniversalMarker;
use uv_normalize::ExtraName;
use vstd::prelude::*;

verus! {

/// The list `known`, with `extra` at its end unless it is in the list already.
pub open spec fn with_extra(known: Seq<ExtraName>, extra: ExtraName) -> Seq<ExtraName> {
    if known.contains(extra) {
        known
    } else {
        known.push(extra)
    }
}

/// The list `known`, with the extra added if there is one.
pub open spec fn with_optional(known: Seq<ExtraName>, extra: Option<ExtraName>) -> Seq<ExtraName> {
    match extra {
        Some(extra) => with_extra(known, extra),
        None => known,
    }
}

/// The list `known`, with the extras of `more` from position `from` on added
/// one after the other.
pub open spec fn with_all(known: Seq<ExtraName>, more: Seq<ExtraName>, from: int) -> Seq<ExtraName>
    decreases more.len() - from,
{
    if from < 0 || from >= more.len() {
        known
    } else {
        with_all(with_extra(known, more[from]), more, from + 1)
    }
}

/// The state of the pass: the extras known at each node, those to assume on
/// each edge, the nodes that have been met, and those that still have to be
/// taken up, last one first.
pub struct Activation {
    pub activated: Seq<Seq<ExtraName>>,
    pub assumed: Seq<Seq<ExtraName>>,
    pub seen: Seq<bool>,
    pub queue: Seq<usize>,
}

/// The state in which the pass starts: nothing is known anywhere, no node has
/// been met, and the roots wait to be taken up.
pub open spec fn begin(view: GraphView) -> Activation {
    Activation {
        activated: Seq::new(view.nodes(), |n: int| Seq::empty()),
        assumed: Seq::new(view.edges.len(), |e: int| Seq::empty()),
        seen: Seq::new(view.nodes(), |n: int| false),
        queue: roots(view),
    }
}

/// Follows the edge with index `edge` out of its source. What is known at the
/// source, together with the extras of the source and of the target, becomes
/// known at the target and is to be assumed on the edge. A target that is met
/// for the first time is queued.
pub open spec fn visit(state: Activation, view: GraphView, edge: usize) -> Activation {
    let Edge { source, target, weight } = view.edges[edge as int];
    let extras = with_optional(
        with_optional(state.activated[source as int], view.extras[source as int]),
        view.extras[target as int],
    );
    Activation {
        activated: state.activated.update(
            target as int,
            with_all(state.activated[target as int], extras, 0),
        ),
        assumed: state.assumed.update(edge as int, with_all(state.assumed[edge as int], extras, 0)),
        seen: state.seen.update(target as int, true),
        queue: if state.seen[target as int] {
            state.queue
        } else {
            state.queue.push(target)
        },
    }
}

/// Follows the edges of `walk` from position `from` on, one after the other.
pub open spec fn visit_walk(state: Activation, view: GraphView, walk: Seq<usize>, from: int) -> Activation
    decreases walk.len() - from,
{
    if from < 0 || from >= walk.len() {
        state
    } else {
        visit_walk(visit(state, view, walk[from]), view, walk, from + 1)
    }
}

/// Takes up the node that was queued last and follows the edges that leave it.
pub open spec fn advance(view: GraphView, state: Activation) -> Activation {
    visit_walk(
        Activation { queue: state.queue.drop_last(), ..state },
        view,
        view.outgoing[state.queue.last() as int],
        0,
    )
}

/// Takes up queued nodes until none is left, but at most `limit` of them.
pub open spec fn traverse(view: GraphView, state: Activation, limit: nat) -> Activation
    decreases limit,
{
    if state.queue.len() == 0 || limit == 0 {
        state
    } else {
        traverse(view, advance(view, state), (limit - 1) as nat)
    }
}

/// The outcome of the pass over a graph. A node is queued only when it is a
/// root or met for the first time, so the limit of three times the number of
/// nodes is never felt: the queue of the outcome is empty.
pub open spec fn activation(view: GraphView) -> Activation {
    traverse(view, begin(view), 3 * view.nodes())
}

/// The marker once each extra of `extras` from position `from` on has been
/// assumed, one after the other.
pub open spec fn assume_all(marker: UniversalMarker, extras: Seq<ExtraName>, from: int) -> UniversalMarker
    decreases extras.len() - from,
{
    if from < 0 || from >= extras.len() {
        marker
    } else {
        assume_all(marker.spec_assume_extra(extras[from]), extras, from + 1)
    }
}

/// The graph in which every edge assumes the extras that the pass found for
/// it. Nothing but the weights of the edges differs.
pub open spec fn simplified(view: GraphView) -> GraphView {
    GraphView {
        extras: view.extras,
        edges: Seq::new(
            view.edges.len(),
            |e: int|
                Edge {
                    source: view.edges[e].source,
                    target: view.edges[e].target,
                    weight: assume_all(view.edges[e].weight, activation(view).assumed[e], 0),
                },
        ),
        outgoing: view.outgoing,
    }
}

/// The conflict marker of a universal marker is trivially true or false:
/// there is nothing in it that an extra could simplify.
pub open spec fn conflict_is_trivial(marker: UniversalMarker) -> bool {
    marker_is_true(marker@.conflict) || marker_is_false(marker@.conflict)
}

/// The lists that a vector of vectors holds.
pub open spec fn lists(vectors: Seq<Vec<ExtraName>>) -> Seq<Seq<ExtraName>> {
    Seq::new(vectors.len(), |i: int| vectors[i]@)
}

/// How many nodes have not been met.
pub open spec fn unseen(seen: Seq<bool>) -> nat
    decreases seen.len(),
{
    if seen.len() == 0 {
        0
    } else {
        unseen(seen.drop_last()) + if seen.last() {
            0nat
        } else {
            1nat
        }
    }
}

/// No more nodes are unmet than there are nodes.
pub proof fn lemma_unseen_bound(seen: Seq<bool>)
    ensures
        unseen(seen) <= seen.len(),
    decreases seen.len(),
{
    if seen.len() > 0 {
        lemma_unseen_bound(seen.drop_last());
    }
}

/// To meet a node leaves one node less unmet, unless it had been met before.
pub proof fn lemma_unseen_update(seen: Seq<bool>, node: int)
    requires
        0 <= node < seen.len(),
    ensures
        unseen(seen.update(node, true)) + (if seen[node] {
            0nat
        } else {
            1nat
        }) == unseen(seen),
    decreases seen.len(),
{
    let after = seen.update(node, true);
    if node == seen.len() - 1 {
        assert(after.drop_last() =~= seen.drop_last());
    } else {
        assert(after.drop_last() =~= seen.drop_last().update(node, true));
        lemma_unseen_update(seen.drop_last(), node);
    }
}

/// Adds an extra to a list unless the list holds it already.
pub fn insert_extra(known: &mut Vec<ExtraName>, extra: &ExtraName)
    ensures
        final(known)@ == with_extra(old(known)@, *extra),
{
    let mut i: usize = 0;
    while i < known.len()
        invariant
            i <= known@.len(),
            known@ == old(known)@,
            forall|k: int| 0 <= k < i ==> known@[k] != *extra,
        decreases known@.len() - i,
    {
        if same_extra(&known[i], extra) {
            return ;
        }
        i += 1;
    }
    known.push(clone_extra(extra));
}

/// Adds each extra of `more` to a list unless the list holds it already.
pub fn extend_extras(known: &mut Vec<ExtraName>, more: &Vec<ExtraName>)
    ensures
        final(known)@ == with_all(old(known)@, more@, 0),
{
    let mut i: usize = 0;
    while i < more.len()
        invariant
            i <= more@.len(),
            with_all(old(known)@, more@, 0) == with_all(known@, more@, i as int),
        decreases more@.len() - i,
    {
        insert_extra(known, &more[i]);
        i += 1;
    }
}

/// Copies a list of extras.
pub fn clone_extras(list: &Vec<ExtraName>) -> (copy: Vec<ExtraName>)
    ensures
        copy@ == list@,
{
    let mut copy: Vec<ExtraName> = Vec::with_capacity(list.len());
    let mut i: usize = 0;
    while i < list.len()
        invariant
            i <= list@.len(),
            copy@ == list@.take(i as int),
        decreases list@.len() - i,
    {
        copy.push(clone_extra(&list[i]));
        i += 1;
    }
    copy
}

/// Gathers, for each edge of a graph, the extras that are known to be
/// switched on where the edge is followed.
pub fn known_extras(adjacency: &Adjacency) -> (assumed: Vec<Vec<ExtraName>>)
    requires
        adjacency@.wf(),
    ensures
        lists(assumed@) == activation(adjacency@).assumed,
        assumed@.len() == adjacency@.edges.len(),
        activation(adjacency@).queue.len() == 0,
{
    let ghost view = adjacency@;
    let nodes = adjacency.node_count();
    let edges = adjacency.edge_count();
    let mut activated: Vec<Vec<ExtraName>> = Vec::with_capacity(nodes);
    let mut seen: Vec<bool> = vec![false; nodes];
    let mut n: usize = 0;
    while n < nodes
        invariant
            n <= nodes,
            activated@.len() == n,
            forall|i: int| 0 <= i < n ==> (#[trigger] activated@[i])@ == Seq::<ExtraName>::empty(),
        decreases nodes - n,
    {
        activated.push(Vec::new());
        n += 1;
    }
    let mut assumed: Vec<Vec<ExtraName>> = Vec::with_capacity(edges);
    let mut e: usize = 0;
    while e < edges
        invariant
            e <= edges,
            assumed@.len() == e,
            forall|i: int| 0 <= i < e ==> (#[trigger] assumed@[i])@ == Seq::<ExtraName>::empty(),
        decreases edges - e,
    {
        assumed.push(Vec::new());
        e += 1;
    }
    let mut queue = find_roots(adjacency);
    let ghost mut left: nat = 3 * view.nodes();
    proof {
        assert(lists(activated@) =~= begin(view).activated);
        assert(lists(assumed@) =~= begin(view).assumed);
        assert(seen@ =~= begin(view).seen);
        lemma_unseen_bound(seen@);
        lemma_roots_bound(view, view.nodes());
    }
    while queue.len() > 0
        invariant
            view == adjacency@,
            view.wf(),
            nodes == view.nodes(),
            edges == view.edges.len(),
            activated@.len() == nodes,
            assumed@.len() == edges,
            seen@.len() == nodes,
            forall|k: int| 0 <= k < queue@.len() ==> (#[trigger] queue@[k]) < nodes,
            2 * unseen(seen@) + queue@.len() <= left,
            activation(view) == traverse(
                view,
                Activation {
                    activated: lists(activated@),
                    assumed: lists(assumed@),
                    seen: seen@,
                    queue: queue@,
                },
                left,
            ),
        decreases left,
    {
        let ghost before = Activation {
            activated: lists(activated@),
            assumed: lists(assumed@),
            seen: seen@,
            queue: queue@,
        };
        let parent = queue.pop().unwrap();
        proof {
            left = (left - 1) as nat;
        }
        let walk = adjacency.outgoing(parent);
        let ghost popped = Activation {
            activated: lists(activated@),
            assumed: lists(assumed@),
            seen: seen@,
            queue: queue@,
        };
        assert(popped == Activation { queue: before.queue.drop_last(), ..before });
        let mut j: usize = 0;
        while j < walk.len()
            invariant
                j <= walk@.len(),
                view == adjacency@,
                view.wf(),
                nodes == view.nodes(),
                edges == view.edges.len(),
                parent < nodes,
                walk@ == view.outgoing[parent as int],
                activated@.len() == nodes,
                assumed@.len() == edges,
                seen@.len() == nodes,
                forall|k: int| 0 <= k < queue@.len() ==> (#[trigger] queue@[k]) < nodes,
                2 * unseen(seen@) + queue@.len() <= left,
                visit_walk(popped, view, walk@, 0) == visit_walk(
                    Activation {
                        activated: lists(activated@),
                        assumed: lists(assumed@),
                        seen: seen@,
                        queue: queue@,
                    },
                    view,
                    walk@,
                    j as int,
                ),
            decreases walk@.len() - j,
        {
            let id = walk[j];
            let edge = adjacency.edge(id);
            let target = edge.target;
            let ghost current = Activation {
                activated: lists(activated@),
                assumed: lists(assumed@),
                seen: seen@,
                queue: queue@,
            };
            let mut extras = clone_extras(&activated[parent]);
            if let Some(extra) = adjacency.extra(parent) {
                insert_extra(&mut extras, extra);
            }
            if let Some(extra) = adjacency.extra(target) {
                insert_extra(&mut extras, extra);
            }
            extend_extras(&mut activated[target], &extras);
            extend_extras(&mut assumed[id], &extras);
            proof {
                lemma_unseen_update(seen@, target as int);
            }
            if !seen[target] {
                seen.set(target, true);
                queue.push(target);
            }
            proof {
                let after = Activation {
                    activated: lists(activated@),
                    assumed: lists(assumed@),
                    seen: seen@,
                    queue: queue@,
                };
                let expected = visit(current, view, id);
                assert(after.activated =~= expected.activated);
                assert(after.assumed =~= expected.assumed);
                assert(after.seen =~= expected.seen);
            }
            j += 1;
        }
    }
    assumed
}

/// There are no more roots below a bound than nodes.
pub proof fn lemma_roots_bound(view: GraphView, bound: nat)
    ensures
        roots_below(view, bound).len() <= bound,
    decreases bound,
{
    if bound > 0 {
        lemma_roots_bound(view, (bound - 1) as nat);
    }
}

/// Assumes each extra of a list on a marker, one after the other. A marker
/// whose conflict marker is trivially true or false has nothing to simplify
/// and stays as it is.
pub fn assume_extras(marker: UniversalMarker, extras: &Vec<ExtraName>) -> (narrowed: UniversalMarker)
    ensures
        narrowed == assume_all(marker, extras@, 0),
        conflict_is_trivial(marker) ==> narrowed == marker,
{
    let mut narrowed = marker;
    let mut i: usize = 0;
    while i < extras.len()
        invariant
            i <= extras@.len(),
            assume_all(marker, extras@, 0) == assume_all(narrowed, extras@, i as int),
            conflict_is_trivial(marker) ==> narrowed == marker,
        decreases extras@.len() - i,
    {
        narrowed.assume_extra(&extras[i]);
        i += 1;
    }
    narrowed
}

/// Walks the given dependency graph and carries along the extras that are
/// switched on: on each edge, every extra that is known where the edge is
/// followed is assumed in the conflict marker of the edge.
///
/// Only the conflict markers of the edges change: the nodes keep their
/// weights and the edges their endpoints and PEP 508 markers. A conflict
/// marker that is trivially true or false stays as it is. Each conflict
/// marker evaluates as before wherever the extras that were assumed on its
/// edge are switched on.
pub fn simplify_conflict_markers(graph: &mut DependencyGraph)
    ensures
        view_of(*old(graph)).wf(),
        activation(view_of(*old(graph))).queue.len() == 0,
        view_of(*final(graph)) == simplified(view_of(*old(graph))),
        graph_nodes(*final(graph)) == graph_nodes(*old(graph)),
        forall|e: int|
            0 <= e < graph_weights(*old(graph)).len() && conflict_is_trivial(
                #[trigger] graph_weights(*old(graph))[e],
            ) ==> graph_weights(*final(graph))[e] == graph_weights(*old(graph))[e],
        keeps_meaning(view_of(*old(graph)), view_of(*final(graph))),
{
    let adjacency = Adjacency::of(graph);
    let ghost view = adjacency@;
    let assumed = known_extras(&adjacency);
    let edges = edge_count(graph);
    let mut e: usize = 0;
    while e < edges
        invariant
            e <= edges,
            view == adjacency@,
            view == view_of(*old(graph)),
            edges == view.edges.len(),
            assumed@.len() == edges,
            lists(assumed@) == activation(view).assumed,
            graph_nodes(*graph) == graph_nodes(*old(graph)),
            graph_endpoints(*graph) == graph_endpoints(*old(graph)),
            forall|node: usize| graph_outgoing(*graph, node) == graph_outgoing(*old(graph), node),
            graph_weights(*graph).len() == edges,
            forall|i: int|
                0 <= i < e ==> (#[trigger] graph_weights(*graph)[i]) == simplified(view).edges[i].weight,
            forall|i: int|
                e <= i < edges ==> (#[trigger] graph_weights(*graph)[i]) == view.edges[i].weight,
            forall|i: int|
                0 <= i < edges && conflict_is_trivial(#[trigger] graph_weights(*old(graph))[i])
                    ==> graph_weights(*graph)[i] == graph_weights(*old(graph))[i],
        decreases edges - e,
    {
        let edge = adjacency.edge(e);
        let narrowed = assume_extras(edge.weight, &assumed[e]);
        set_edge_weight(graph, e, narrowed);
        e += 1;
    }
    proof {
        let after = view_of(*graph);
        let expected = simplified(view);
        assert(after.edges =~= expected.edges);
        assert(after.outgoing =~= expected.outgoing);
        law_simplified_graph_keeps_meaning(view);
    }
}

} // verus!
