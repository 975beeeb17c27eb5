//! What it means that an extra is assumed on an edge.
//!
//! Two things hold of the simplified graph. The weight of an edge evaluates
//! as before wherever the extras that were assumed on it are switched on. And
//! every extra that was assumed on an edge is the extra of a node on some
//! path from a root that ends with the edge.

use crate::graph::GraphView;
use crate::meaning::{assumptions_keep_at, lemma_assume_holds, part_holds};
use crate::paths::{is_root_path, lemma_roots_below, reachable};
use crate::reachability::roots;
use crate::simplify::{
    activation, advance, assume_all, begin, lemma_roots_bound, lemma_unseen_bound,
    lemma_unseen_update, simplified, traverse, unseen, visit, visit_walk, with_all, with_extra,
    with_optional, Activation,
};
use crate::universal_marker::{group_universal_marker, UniversalMarker};
use uv_normalize::ExtraName;
use uv_pep508::MarkerEnvironment;
use vstd::prelude::*;

verus! {

/// Every extra of `assumed` is switched on in `extras`.
pub open spec fn all_switched_on(assumed: Seq<ExtraName>, extras: Seq<ExtraName>) -> bool {
    forall|i: int| 0 <= i < assumed.len() ==> extras.contains(#[trigger] assumed[i])
}

/// Where assumptions keep the meaning, to assume extras that are switched on
/// leaves what each marker of a universal marker evaluates to as it is.
pub proof fn law_assumed_extras_keep_meaning(
    marker: UniversalMarker,
    assumed: Seq<ExtraName>,
    from: int,
    conflict: bool,
    env: MarkerEnvironment,
    extras: Seq<ExtraName>,
)
    requires
        assumptions_keep_at(env, extras),
        all_switched_on(assumed, extras),
        0 <= from,
    ensures
        part_holds(assume_all(marker, assumed, from), conflict, env, extras) == part_holds(
            marker,
            conflict,
            env,
            extras,
        ),
    decreases assumed.len() - from,
{
    if from < assumed.len() {
        lemma_assume_holds(marker, assumed[from], conflict, env, extras);
        law_assumed_extras_keep_meaning(
            marker.spec_assume_extra(assumed[from]),
            assumed,
            from + 1,
            conflict,
            env,
            extras,
        );
    }
}

/// To assume extras leaves the PEP 508 marker of a universal marker alone.
pub proof fn law_assumed_extras_keep_pep508(marker: UniversalMarker, assumed: Seq<ExtraName>, from: int)
    requires
        0 <= from,
    ensures
        assume_all(marker, assumed, from)@.pep508 == marker@.pep508,
    decreases assumed.len() - from,
{
    broadcast use group_universal_marker;
    if from < assumed.len() {
        law_assumed_extras_keep_pep508(marker.spec_assume_extra(assumed[from]), assumed, from + 1);
    }
}

/// Where assumptions keep the meaning, the simplified weight of an edge
/// evaluates as the weight did before, on every list of extras in which the
/// extras that
/// were assumed on the edge are switched on.
pub proof fn law_simplified_keeps_meaning(
    view: GraphView,
    edge: int,
    env: MarkerEnvironment,
    extras: Seq<ExtraName>,
)
    requires
        assumptions_keep_at(env, extras),
        0 <= edge < view.edges.len(),
        all_switched_on(activation(view).assumed[edge], extras),
    ensures
        simplified(view).edges[edge].weight.holds(env, extras) == view.edges[edge].weight.holds(
            env,
            extras,
        ),
        simplified(view).edges[edge].weight@.pep508 == view.edges[edge].weight@.pep508,
{
    let weight = view.edges[edge].weight;
    let assumed = activation(view).assumed[edge];
    law_assumed_extras_keep_meaning(weight, assumed, 0, true, env, extras);
    law_assumed_extras_keep_pep508(weight, assumed, 0);
}

/// Every edge of `after` has the PEP 508 marker that it has in `before`, and
/// where assumptions keep the meaning, it evaluates as it does in `before`
/// wherever the extras that the pass assumes on it are switched on.
pub open spec fn keeps_meaning(before: GraphView, after: GraphView) -> bool {
    &&& forall|edge: int|
        0 <= edge < before.edges.len() ==> (#[trigger] after.edges[edge]).weight@.pep508
            == before.edges[edge].weight@.pep508
    &&& forall|edge: int, env: MarkerEnvironment, extras: Seq<ExtraName>|
        assumptions_keep_at(env, extras) && 0 <= edge < before.edges.len() && all_switched_on(
            activation(before).assumed[edge],
            extras,
        ) ==> #[trigger] after.edges[edge].weight.holds(env, extras) == before.edges[edge].weight.holds(
            env,
            extras,
        )
}

/// The simplified graph keeps the meaning of every edge.
pub proof fn law_simplified_graph_keeps_meaning(view: GraphView)
    ensures
        keeps_meaning(view, simplified(view)),
{
    assert forall|edge: int| 0 <= edge < view.edges.len() implies (#[trigger] simplified(
        view,
    ).edges[edge]).weight@.pep508 == view.edges[edge].weight@.pep508 by {
        law_assumed_extras_keep_pep508(view.edges[edge].weight, activation(view).assumed[edge], 0);
    }
    assert forall|edge: int, env: MarkerEnvironment, extras: Seq<ExtraName>|
        assumptions_keep_at(env, extras) && 0 <= edge < view.edges.len() && all_switched_on(
            activation(view).assumed[edge],
            extras,
        ) implies #[trigger] simplified(view).edges[edge].weight.holds(env, extras)
        == view.edges[edge].weight.holds(env, extras) by {
        law_simplified_keeps_meaning(view, edge, env, extras);
    }
}

/// Every node that waits is a node of the graph, and every node of the graph
/// is marked as met or not.
pub open spec fn in_range(view: GraphView, state: Activation) -> bool {
    &&& state.seen.len() == view.nodes()
    &&& forall|k: int| 0 <= k < state.queue.len() ==> (#[trigger] state.queue[k]) < view.nodes()
}

/// How many nodes the pass still has to take up at most: those that wait, and
/// those that have not been met, each of which may come to wait once.
pub open spec fn pending(state: Activation) -> nat {
    2 * unseen(state.seen) + state.queue.len()
}

proof fn lemma_visit_walk_pending(
    view: GraphView,
    state: Activation,
    parent: usize,
    walk: Seq<usize>,
    from: int,
)
    requires
        view.wf(),
        parent < view.nodes(),
        view.is_walk_from(parent, walk),
        0 <= from,
        in_range(view, state),
    ensures
        in_range(view, visit_walk(state, view, walk, from)),
        pending(visit_walk(state, view, walk, from)) <= pending(state),
    decreases walk.len() - from,
{
    if from < walk.len() {
        let target = view.edges[walk[from] as int].target;
        assert(walk[from] < view.edges.len());
        lemma_unseen_update(state.seen, target as int);
        lemma_visit_walk_pending(view, visit(state, view, walk[from]), parent, walk, from + 1);
    }
}

proof fn lemma_traverse_ends(view: GraphView, state: Activation, limit: nat)
    requires
        view.wf(),
        in_range(view, state),
        pending(state) <= limit,
    ensures
        traverse(view, state, limit).queue.len() == 0,
    decreases limit,
{
    if state.queue.len() != 0 {
        let parent = state.queue.last();
        let popped = Activation { queue: state.queue.drop_last(), ..state };
        assert(state.queue[state.queue.len() - 1] == parent);
        assert forall|k: int| 0 <= k < popped.queue.len() implies (#[trigger] popped.queue[k])
            < view.nodes() by {
            assert(popped.queue[k] == state.queue[k]);
        }
        lemma_visit_walk_pending(view, popped, parent, view.outgoing[parent as int], 0);
        lemma_traverse_ends(view, advance(view, state), (limit - 1) as nat);
    }
}

/// The pass runs to its end on every graph: when it stops, no node waits.
pub proof fn law_pass_ends(view: GraphView)
    requires
        view.wf(),
    ensures
        activation(view).queue.len() == 0,
{
    let state = begin(view);
    lemma_unseen_bound(state.seen);
    lemma_roots_bound(view, view.nodes());
    assert forall|k: int| 0 <= k < state.queue.len() implies (#[trigger] state.queue[k])
        < view.nodes() by {
        assert(roots(view).contains(state.queue[k]));
        lemma_roots_below(view, view.nodes(), state.queue[k]);
    }
    lemma_traverse_ends(view, state, 3 * view.nodes());
}

/// The extra is that of a node on the path: of the root, or of the target of
/// one of the edges.
pub open spec fn on_path(view: GraphView, root: usize, path: Seq<usize>, extra: ExtraName) -> bool {
    ||| view.extras[root as int] == Some(extra)
    ||| exists|i: int|
        0 <= i < path.len() && view.extras[view.edges[(#[trigger] path[i]) as int].target as int]
            == Some(extra)
}

/// The extra is that of a node on some path from a root to `node`.
pub open spec fn met_before(view: GraphView, node: usize, extra: ExtraName) -> bool {
    exists|root: usize, path: Seq<usize>| #[trigger]
        is_root_path(view, root, path, node) && on_path(view, root, path, extra)
}

/// The extra is that of a node on some path from a root that ends with the
/// edge `edge`.
pub open spec fn met_through(view: GraphView, edge: usize, extra: ExtraName) -> bool {
    exists|root: usize, path: Seq<usize>| #[trigger]
        is_root_path(view, root, path, view.edges[edge as int].target) && path.len() > 0
            && path.last() == edge && on_path(view, root, path, extra)
}

/// What holds of the pass at every moment: whatever is known at a node or
/// assumed on an edge was met on some path from a root that leads there.
pub open spec fn known_was_met(view: GraphView, state: Activation) -> bool {
    &&& state.activated.len() == view.nodes()
    &&& state.assumed.len() == view.edges.len()
    &&& state.seen.len() == view.nodes()
    &&& forall|k: int|
        0 <= k < state.queue.len() ==> (#[trigger] state.queue[k]) < view.nodes() && reachable(
            view,
            state.queue[k],
        )
    &&& forall|node: int, i: int|
        0 <= node < view.nodes() && 0 <= i < state.activated[node].len() ==> met_before(
            view,
            node as usize,
            #[trigger] state.activated[node][i],
        )
    &&& forall|edge: int, i: int|
        0 <= edge < view.edges.len() && 0 <= i < state.assumed[edge].len() ==> met_through(
            view,
            edge as usize,
            #[trigger] state.assumed[edge][i],
        )
}

proof fn lemma_with_all_members(known: Seq<ExtraName>, more: Seq<ExtraName>, from: int, extra: ExtraName)
    requires
        0 <= from,
        with_all(known, more, from).contains(extra),
    ensures
        known.contains(extra) || more.contains(extra),
    decreases more.len() - from,
{
    if from < more.len() {
        let next = with_extra(known, more[from]);
        lemma_with_all_members(next, more, from + 1, extra);
    }
}

/// To follow an edge keeps whatever is known tied to a path.
proof fn lemma_visit_known(view: GraphView, state: Activation, edge: usize)
    requires
        view.wf(),
        edge < view.edges.len(),
        reachable(view, view.edges[edge as int].source),
        known_was_met(view, state),
    ensures
        known_was_met(view, visit(state, view, edge)),
{
    let source = view.edges[edge as int].source;
    let target = view.edges[edge as int].target;
    let after = visit(state, view, edge);
    let at_source = state.activated[source as int];
    let with_source = with_optional(at_source, view.extras[source as int]);
    let extras = with_optional(with_source, view.extras[target as int]);
    let (some_root, some_path) = choose|root: usize, path: Seq<usize>|
        is_root_path(view, root, path, source);
    // Every extra that the edge passes on was met on a path that ends with the edge.
    assert forall|extra: ExtraName| extras.contains(extra) implies met_through(view, edge, extra) by {
        let (root, path) = if at_source.contains(extra) {
            choose|root: usize, path: Seq<usize>| #[trigger]
                is_root_path(view, root, path, source) && on_path(view, root, path, extra)
        } else {
            (some_root, some_path)
        };
        let longer = path.push(edge);
        assert(longer.drop_last() =~= path);
        assert(is_root_path(view, root, longer, target) && longer.len() > 0 && longer.last() == edge
            && on_path(view, root, longer, extra));
    }

    assert forall|node: int, i: int|
        0 <= node < view.nodes() && 0 <= i < after.activated[node].len() implies met_before(
        view,
        node as usize,
        #[trigger] after.activated[node][i],
    ) by {
        if node == target {
            let extra = after.activated[node][i];
            lemma_with_all_members(state.activated[node], extras, 0, extra);
        }
    }
    assert forall|id: int, i: int|
        0 <= id < view.edges.len() && 0 <= i < after.assumed[id].len() implies met_through(
        view,
        id as usize,
        #[trigger] after.assumed[id][i],
    ) by {
        if id == edge {
            let extra = after.assumed[id][i];
            lemma_with_all_members(state.assumed[id], extras, 0, extra);
        }
    }
    assert forall|k: int| 0 <= k < after.queue.len() implies (#[trigger] after.queue[k])
        < view.nodes() && reachable(view, after.queue[k]) by {
        if k >= state.queue.len() {
            let longer = some_path.push(edge);
            assert(longer.drop_last() =~= some_path);
            assert(is_root_path(view, some_root, longer, target));
        }
    }
}

proof fn lemma_visit_walk_known(
    view: GraphView,
    state: Activation,
    parent: usize,
    walk: Seq<usize>,
    from: int,
)
    requires
        view.wf(),
        parent < view.nodes(),
        reachable(view, parent),
        view.is_walk_from(parent, walk),
        0 <= from,
        known_was_met(view, state),
    ensures
        known_was_met(view, visit_walk(state, view, walk, from)),
    decreases walk.len() - from,
{
    if from < walk.len() {
        lemma_visit_known(view, state, walk[from]);
        lemma_visit_walk_known(view, visit(state, view, walk[from]), parent, walk, from + 1);
    }
}

proof fn lemma_traverse_known(view: GraphView, state: Activation, limit: nat)
    requires
        view.wf(),
        known_was_met(view, state),
    ensures
        known_was_met(view, traverse(view, state, limit)),
    decreases limit,
{
    if state.queue.len() != 0 && limit != 0 {
        let parent = state.queue.last();
        let popped = Activation { queue: state.queue.drop_last(), ..state };
        lemma_visit_walk_known(view, popped, parent, view.outgoing[parent as int], 0);
        lemma_traverse_known(view, advance(view, state), (limit - 1) as nat);
    }
}

/// Every extra that the pass assumes on an edge is the extra of a node on
/// some path from a root that ends with that edge. It need not be on every
/// such path: what is known at a node is gathered from all the edges that
/// were followed into it before it was taken up.
pub proof fn law_assumed_extras_were_met(view: GraphView, edge: int, i: int)
    requires
        view.wf(),
        0 <= edge < view.edges.len(),
        0 <= i < activation(view).assumed[edge].len(),
    ensures
        met_through(view, edge as usize, activation(view).assumed[edge][i]),
{
    let state = begin(view);
    assert forall|k: int| 0 <= k < state.queue.len() implies (#[trigger] state.queue[k])
        < view.nodes() && reachable(view, state.queue[k]) by {
        let root = roots(view)[k];
        lemma_roots_below(view, view.nodes(), root);
        assert(is_root_path(view, root, Seq::<usize>::empty(), root));
    }
    lemma_traverse_known(view, state, 3 * view.nodes());
}

/// Every extra of a node on a path from a root that ends with the edge
/// `edge` is switched on.
pub open spec fn switched_on_along(view: GraphView, edge: usize, extras: Seq<ExtraName>) -> bool {
    forall|root: usize, path: Seq<usize>, extra: ExtraName|
        #![trigger is_root_path(view, root, path, view.edges[edge as int].target), on_path(view, root, path, extra)]
        is_root_path(view, root, path, view.edges[edge as int].target) && path.len() > 0
            && path.last() == edge && on_path(view, root, path, extra) ==> extras.contains(extra)
}

/// Where assumptions keep the meaning, the simplified weight of an edge
/// evaluates as the weight did before, on every list of extras in which the
/// extras of the nodes along the paths that end with the edge are switched
/// on.
pub proof fn law_simplified_keeps_meaning_along_paths(
    view: GraphView,
    edge: int,
    env: MarkerEnvironment,
    extras: Seq<ExtraName>,
)
    requires
        view.wf(),
        assumptions_keep_at(env, extras),
        0 <= edge < view.edges.len(),
        switched_on_along(view, edge as usize, extras),
    ensures
        simplified(view).edges[edge].weight.holds(env, extras) == view.edges[edge].weight.holds(
            env,
            extras,
        ),
{
    let assumed = activation(view).assumed[edge];
    assert forall|i: int| 0 <= i < assumed.len() implies extras.contains(#[trigger] assumed[i]) by {
        law_assumed_extras_were_met(view, edge, i);
        let (root, path) = choose|root: usize, path: Seq<usize>| #[trigger]
            is_root_path(view, root, path, view.edges[edge].target) && path.len() > 0 && path.last()
                == edge as usize && on_path(view, root, path, assumed[i]);
        assert(is_root_path(view, root, path, view.edges[edge].target) && on_path(
            view,
            root,
            path,
            assumed[i],
        ));
    }
    law_simplified_keeps_meaning(view, edge, env, extras);
}

} // verus!
