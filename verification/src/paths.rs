//! What the conditions that the worklist finds mean: where every answer of
//! the engine means what was asked for, each of the two markers of a node's
//! condition holds exactly where that marker holds for the roots and for
//! every edge of some path from a root to the node.
//!
//! The two markers of a condition are combined separately, so the statement is
//! one about each of them, not about their conjunction: the PEP 508 marker may
//! hold by one path and the conflict marker by another.

use crate::graph::GraphView;
use crate::meaning::{intersects_at, part_holds, unites_at};
use crate::reachability::{
    is_root_condition, record, relax_walk, roots, roots_below, run, run_meets, start, step, stored,
    walk_meets, Outcome, Propagation, Requirement,
};
use crate::universal_marker::UniversalMarker;
use uv_normalize::ExtraName;
use uv_pep508::MarkerEnvironment;
use vstd::prelude::*;

verus! {

/// What a statement on evaluation speaks of: one of the two markers of a
/// condition, an environment, and the extras that are switched on. Where
/// `meant` is false, the statement is not about evaluation at all.
pub struct Sense {
    pub meant: bool,
    pub conflict: bool,
    pub env: MarkerEnvironment,
    pub extras: Seq<ExtraName>,
}

/// Whether the marker that the sense speaks of holds.
pub open spec fn holds_in(marker: UniversalMarker, sense: Sense) -> bool {
    part_holds(marker, sense.conflict, sense.env, sense.extras)
}

/// The engine's answers for an edge mean what was asked for: the candidate
/// holds exactly where the weight of the edge and the condition of its source
/// hold, and the merged marker exactly where the candidate holds or what the
/// target had.
pub open spec fn meaning(sense: Sense) -> Requirement {
    |weight: UniversalMarker, marker: UniversalMarker, had: Option<UniversalMarker>, outcome: Outcome|
        sense.meant ==> {
            &&& intersects_at(
                weight,
                marker,
                outcome.candidate,
                sense.conflict,
                sense.env,
                sense.extras,
            )
            &&& had matches Some(existing) ==> unites_at(
                outcome.candidate,
                existing,
                outcome.merged,
                sense.conflict,
                sense.env,
                sense.extras,
            )
        }
}

/// The engine's answers for an edge cover what the target had: the merged
/// marker holds wherever that held. This is less than [`meaning`] asks.
pub open spec fn covering(sense: Sense) -> Requirement {
    |weight: UniversalMarker, marker: UniversalMarker, had: Option<UniversalMarker>, outcome: Outcome|
        had matches Some(existing) ==> (holds_in(existing, sense) ==> holds_in(
            outcome.merged,
            sense,
        ))
}

/// The edges of `path`, one after the other, lead from `from` to `to`.
pub open spec fn is_path(view: GraphView, path: Seq<usize>, from: usize, to: usize) -> bool
    decreases path.len(),
{
    if path.len() == 0 {
        from == to
    } else {
        &&& path.last() < view.edges.len()
        &&& view.edges[path.last() as int].target == to
        &&& is_path(view, path.drop_last(), from, view.edges[path.last() as int].source)
    }
}

/// The edges of `path` lead from the root `root` to `node`.
pub open spec fn is_root_path(view: GraphView, root: usize, path: Seq<usize>, node: usize) -> bool {
    &&& root < view.nodes()
    &&& view.is_root(root)
    &&& is_path(view, path, root, node)
}

/// Some path leads from a root to `node`.
pub open spec fn reachable(view: GraphView, node: usize) -> bool {
    exists|root: usize, path: Seq<usize>| is_root_path(view, root, path, node)
}

/// The marker that the sense speaks of holds for every edge of `path`.
pub open spec fn path_holds(view: GraphView, path: Seq<usize>, sense: Sense) -> bool {
    forall|i: int|
        0 <= i < path.len() ==> holds_in(view.edges[(#[trigger] path[i]) as int].weight, sense)
}

/// The marker that the sense speaks of holds for the roots, whose condition
/// is `origin`, and for every edge of some path from a root to `node`.
pub open spec fn holds_on_some_path(
    view: GraphView,
    origin: UniversalMarker,
    node: usize,
    sense: Sense,
) -> bool {
    &&& holds_in(origin, sense)
    &&& exists|root: usize, path: Seq<usize>| #[trigger]
        is_root_path(view, root, path, node) && path_holds(view, path, sense)
}

/// A path that is followed by an edge out of its end is a path to the target
/// of that edge.
proof fn lemma_extend_path(view: GraphView, root: usize, path: Seq<usize>, edge: usize, sense: Sense)
    requires
        edge < view.edges.len(),
        is_root_path(view, root, path, view.edges[edge as int].source),
    ensures
        is_root_path(view, root, path.push(edge), view.edges[edge as int].target),
        path_holds(view, path, sense) && holds_in(view.edges[edge as int].weight, sense)
            ==> path_holds(view, path.push(edge), sense),
{
    let longer = path.push(edge);
    assert(longer.drop_last() =~= path);
}

/// The conditions of `after` are at least as wide as those of `before`: what
/// was reached stays reached, and the marker of a node holds wherever it held
/// before.
pub open spec fn widens(
    before: Map<usize, UniversalMarker>,
    after: Map<usize, UniversalMarker>,
    sense: Sense,
) -> bool {
    forall|node: usize| #[trigger]
        before.contains_key(node) ==> after.contains_key(node) && (holds_in(before[node], sense)
            ==> holds_in(after[node], sense))
}

/// Where the merged marker covers what the target had, to follow an edge
/// only widens conditions.
pub proof fn law_record_widens(state: Propagation, target: usize, outcome: Outcome, sense: Sense)
    requires
        stored(state, target) matches Some(existing) ==> (holds_in(existing, sense) ==> holds_in(
            outcome.merged,
            sense,
        )),
    ensures
        widens(state.reached, record(state, target, outcome).reached, sense),
{
}

/// Where the engine's answers cover what the targets had, to follow the
/// edges of a walk only widens conditions.
pub proof fn law_relax_walk_widens(
    state: Propagation,
    view: GraphView,
    marker: UniversalMarker,
    walk: Seq<usize>,
    from: int,
    row: Seq<Outcome>,
    sense: Sense,
)
    requires
        walk_meets(state, view, marker, walk, from, row, covering(sense)),
    ensures
        widens(state.reached, relax_walk(state, view, walk, from, row).reached, sense),
    decreases walk.len() - from,
{
    if 0 <= from < walk.len() {
        let target = view.edges[walk[from] as int].target;
        law_record_widens(state, target, row[from], sense);
        law_relax_walk_widens(
            record(state, target, row[from]),
            view,
            marker,
            walk,
            from + 1,
            row,
            sense,
        );
    }
}

/// The condition of a node never narrows while the worklist runs: whatever
/// state the worklist is in, a node that is reached stays reached, and where
/// the engine's answers cover what the targets had, each marker of the
/// condition that is found for it in the end holds wherever that marker holds
/// now.
pub proof fn law_conditions_only_widen(
    view: GraphView,
    state: Propagation,
    limit: nat,
    trace: Seq<Seq<Outcome>>,
    at: int,
    sense: Sense,
)
    requires
        run_meets(view, state, limit, trace, at, covering(sense)),
        run(view, state, limit, trace, at) is Some,
    ensures
        widens(state.reached, run(view, state, limit, trace, at).unwrap(), sense),
    decreases limit,
{
    if state.queue.len() != 0 {
        let popped = Propagation { reached: state.reached, queue: state.queue.drop_last() };
        law_relax_walk_widens(
            popped,
            view,
            state.reached[state.queue.last()],
            view.outgoing[state.queue.last() as int],
            0,
            trace[at],
            sense,
        );
        law_conditions_only_widen(
            view,
            step(view, state, trace[at]),
            (limit - 1) as nat,
            trace,
            at + 1,
            sense,
        );
    }
}

/// The edge with index `edge` has been followed with `marker` as the
/// condition of its source: its target is reached, and the marker of the
/// target holds wherever that of the edge and that of `marker` hold.
pub open spec fn edge_closed(
    view: GraphView,
    reached: Map<usize, UniversalMarker>,
    edge: int,
    marker: UniversalMarker,
    sense: Sense,
) -> bool {
    &&& reached.contains_key(view.edges[edge].target)
    &&& sense.meant && holds_in(view.edges[edge].weight, sense) && holds_in(marker, sense)
        ==> holds_in(reached[view.edges[edge].target], sense)
}

/// Every edge that leaves `node` has been followed with the condition that
/// the node has now.
pub open spec fn node_closed(
    view: GraphView,
    reached: Map<usize, UniversalMarker>,
    node: usize,
    sense: Sense,
) -> bool {
    forall|e: int|
        0 <= e < view.edges.len() && (#[trigger] view.edges[e]).source == node ==> edge_closed(
            view,
            reached,
            e,
            reached[node],
            sense,
        )
}

/// Every node that is reached can be reached, and its marker holds only
/// where it holds on some path.
pub open spec fn sound(
    view: GraphView,
    origin: UniversalMarker,
    reached: Map<usize, UniversalMarker>,
    sense: Sense,
) -> bool {
    forall|node: usize| #[trigger]
        reached.contains_key(node) ==> node < view.nodes() && reachable(view, node) && (sense.meant
            && holds_in(reached[node], sense) ==> holds_on_some_path(view, origin, node, sense))
}

/// Every root is reached with the condition of the roots.
pub open spec fn roots_kept(
    view: GraphView,
    origin: UniversalMarker,
    reached: Map<usize, UniversalMarker>,
) -> bool {
    forall|root: usize|
        root < view.nodes() && #[trigger] view.is_root(root) ==> reached.contains_key(root)
            && reached[root] == origin
}

/// Every node that is queued is a node of the graph that is reached.
pub open spec fn queue_known(view: GraphView, state: Propagation) -> bool {
    forall|k: int|
        0 <= k < state.queue.len() ==> (#[trigger] state.queue[k]) < view.nodes()
            && state.reached.contains_key(state.queue[k])
}

/// What holds of the worklist between two nodes: the conditions are sound,
/// the roots have theirs, and every node that is reached and not queued has
/// had its edges followed with the condition that it has now.
pub open spec fn between(
    view: GraphView,
    origin: UniversalMarker,
    state: Propagation,
    sense: Sense,
) -> bool {
    &&& queue_known(view, state)
    &&& roots_kept(view, origin, state.reached)
    &&& sound(view, origin, state.reached, sense)
    &&& forall|node: usize| #[trigger]
        state.reached.contains_key(node) && !state.queue.contains(node) ==> node_closed(
            view,
            state.reached,
            node,
            sense,
        )
}

/// What holds of the worklist while the edges of `parent` are followed, once
/// the first `done` edges of the walk have been.
pub open spec fn midway(
    view: GraphView,
    origin: UniversalMarker,
    state: Propagation,
    parent: usize,
    marker: UniversalMarker,
    walk: Seq<usize>,
    done: int,
    sense: Sense,
) -> bool {
    &&& queue_known(view, state)
    &&& roots_kept(view, origin, state.reached)
    &&& sound(view, origin, state.reached, sense)
    &&& state.reached.contains_key(parent)
    &&& sense.meant && holds_in(marker, sense) ==> holds_on_some_path(view, origin, parent, sense)
    &&& forall|node: usize| #[trigger]
        state.reached.contains_key(node) && !state.queue.contains(node) && node != parent
            ==> node_closed(view, state.reached, node, sense)
    &&& !state.queue.contains(parent) ==> state.reached[parent] == marker
    &&& forall|i: int|
        0 <= i < done ==> edge_closed(view, state.reached, (#[trigger] walk[i]) as int, marker, sense)
}

proof fn lemma_push_contains(queue: Seq<usize>, node: usize, other: usize)
    ensures
        queue.push(node).contains(node),
        queue.contains(other) ==> queue.push(node).contains(other),
{
    assert(queue.push(node)[queue.len() as int] == node);
    if queue.contains(other) {
        let k = choose|k: int| 0 <= k < queue.len() && queue[k] == other;
        assert(queue.push(node)[k] == other);
    }
}

/// Where a marker holds on some path to the source of an edge and the edge's
/// own marker holds, it holds on some path to the target of the edge.
proof fn lemma_extend_some_path(view: GraphView, origin: UniversalMarker, edge: usize, sense: Sense)
    requires
        edge < view.edges.len(),
    ensures
        reachable(view, view.edges[edge as int].source) ==> reachable(
            view,
            view.edges[edge as int].target,
        ),
        holds_on_some_path(view, origin, view.edges[edge as int].source, sense) && holds_in(
            view.edges[edge as int].weight,
            sense,
        ) ==> holds_on_some_path(view, origin, view.edges[edge as int].target, sense),
{
    let source = view.edges[edge as int].source;
    let target = view.edges[edge as int].target;
    if reachable(view, source) {
        let (root, path) = choose|root: usize, path: Seq<usize>|
            is_root_path(view, root, path, source);
        lemma_extend_path(view, root, path, edge, sense);
        assert(is_root_path(view, root, path.push(edge), target));
    }
    if holds_on_some_path(view, origin, source, sense) && holds_in(
        view.edges[edge as int].weight,
        sense,
    ) {
        let (root, path) = choose|root: usize, path: Seq<usize>| #[trigger]
            is_root_path(view, root, path, source) && path_holds(view, path, sense);
        lemma_extend_path(view, root, path, edge, sense);
        assert(is_root_path(view, root, path.push(edge), target) && path_holds(
            view,
            path.push(edge),
            sense,
        ));
    }
}

/// To follow one more edge of the walk keeps what holds midway.
proof fn lemma_record_midway(
    view: GraphView,
    origin: UniversalMarker,
    state: Propagation,
    parent: usize,
    marker: UniversalMarker,
    walk: Seq<usize>,
    done: int,
    outcome: Outcome,
    sense: Sense,
)
    requires
        view.wf(),
        parent < view.nodes(),
        view.is_walk_from(parent, walk),
        0 <= done < walk.len(),
        midway(view, origin, state, parent, marker, walk, done, sense),
        meaning(sense)(
            view.edges[walk[done] as int].weight,
            marker,
            stored(state, view.edges[walk[done] as int].target),
            outcome,
        ),
    ensures
        midway(
            view,
            origin,
            record(state, view.edges[walk[done] as int].target, outcome),
            parent,
            marker,
            walk,
            done + 1,
            sense,
        ),
{
    let id = walk[done];
    let edge = view.edges[id as int];
    let target = edge.target;
    let after = record(state, target, outcome);
    assert(id < view.edges.len() && edge.source == parent);
    assert(target < view.nodes());
    lemma_push_contains(state.queue, target, parent);
    lemma_extend_some_path(view, origin, id, sense);
    assert(reachable(view, parent));
    // The queue only grows, by the target.
    assert forall|node: usize| state.queue.contains(node) implies after.queue.contains(node) by {
        lemma_push_contains(state.queue, target, node);
    }
    assert(roots_kept(view, origin, after.reached)) by {
        assert forall|root: usize| root < view.nodes() && #[trigger] view.is_root(root) implies
            after.reached.contains_key(root) && after.reached[root] == origin by {
            assert(view.edges[id as int].target != root);
        }
    }
    assert forall|node: usize| #[trigger]
        after.reached.contains_key(node) && !after.queue.contains(node) && node
            != parent implies node_closed(view, after.reached, node, sense) by {
        assert(state.reached.contains_key(node));
        assert(!state.queue.contains(node));
        assert(after.reached[node] == state.reached[node]);
        assert(node_closed(view, state.reached, node, sense));
        assert forall|e: int|
            0 <= e < view.edges.len() && (#[trigger] view.edges[e]).source == node implies edge_closed(
            view,
            after.reached,
            e,
            after.reached[node],
            sense,
        ) by {
            assert(edge_closed(view, state.reached, e, state.reached[node], sense));
        }
    }
    assert forall|i: int| 0 <= i < done + 1 implies edge_closed(
        view,
        after.reached,
        (#[trigger] walk[i]) as int,
        marker,
        sense,
    ) by {
        if i < done {
            assert(edge_closed(view, state.reached, walk[i] as int, marker, sense));
        }
    }
}

/// To follow the rest of the walk keeps what holds midway.
proof fn lemma_relax_walk_midway(
    view: GraphView,
    origin: UniversalMarker,
    state: Propagation,
    parent: usize,
    marker: UniversalMarker,
    walk: Seq<usize>,
    done: int,
    row: Seq<Outcome>,
    sense: Sense,
)
    requires
        view.wf(),
        parent < view.nodes(),
        view.is_walk_from(parent, walk),
        0 <= done <= walk.len(),
        midway(view, origin, state, parent, marker, walk, done, sense),
        walk_meets(state, view, marker, walk, done, row, meaning(sense)),
    ensures
        midway(
            view,
            origin,
            relax_walk(state, view, walk, done, row),
            parent,
            marker,
            walk,
            walk.len() as int,
            sense,
        ),
    decreases walk.len() - done,
{
    if done < walk.len() {
        let target = view.edges[walk[done] as int].target;
        lemma_record_midway(view, origin, state, parent, marker, walk, done, row[done], sense);
        lemma_relax_walk_midway(
            view,
            origin,
            record(state, target, row[done]),
            parent,
            marker,
            walk,
            done + 1,
            row,
            sense,
        );
    }
}

/// To take up a queued node keeps what holds between two nodes.
proof fn lemma_step_between(
    view: GraphView,
    origin: UniversalMarker,
    state: Propagation,
    row: Seq<Outcome>,
    sense: Sense,
)
    requires
        view.wf(),
        state.queue.len() > 0,
        between(view, origin, state, sense),
        walk_meets(
            Propagation { reached: state.reached, queue: state.queue.drop_last() },
            view,
            state.reached[state.queue.last()],
            view.outgoing[state.queue.last() as int],
            0,
            row,
            meaning(sense),
        ),
    ensures
        between(view, origin, step(view, state, row), sense),
{
    let parent = state.queue.last();
    let marker = state.reached[parent];
    let walk = view.outgoing[parent as int];
    let popped = Propagation { reached: state.reached, queue: state.queue.drop_last() };
    assert(state.queue[state.queue.len() - 1] == parent);
    assert(parent < view.nodes() && state.reached.contains_key(parent));
    assert(view.is_walk_from(parent, walk));
    assert forall|node: usize| state.queue.contains(node) && node != parent implies popped.queue.contains(
        node,
    ) by {
        let k = choose|k: int| 0 <= k < state.queue.len() && state.queue[k] == node;
        assert(popped.queue[k] == node);
    }
    assert(queue_known(view, popped)) by {
        assert forall|k: int| 0 <= k < popped.queue.len() implies (#[trigger] popped.queue[k])
            < view.nodes() && popped.reached.contains_key(popped.queue[k]) by {
            assert(popped.queue[k] == state.queue[k]);
        }
    }
    assert(midway(view, origin, popped, parent, marker, walk, 0, sense));
    lemma_relax_walk_midway(view, origin, popped, parent, marker, walk, 0, row, sense);
    let after = step(view, state, row);
    assert forall|node: usize| #[trigger]
        after.reached.contains_key(node) && !after.queue.contains(node) implies node_closed(
        view,
        after.reached,
        node,
        sense,
    ) by {
        if node == parent {
            assert forall|e: int|
                0 <= e < view.edges.len() && (#[trigger] view.edges[e]).source == parent implies edge_closed(
                view,
                after.reached,
                e,
                after.reached[parent],
                sense,
            ) by {
                assert(walk.contains(e as usize));
                let i = choose|i: int| 0 <= i < walk.len() && walk[i] == e as usize;
                assert(edge_closed(view, after.reached, walk[i] as int, marker, sense));
            }
        }
    }
}

/// Once the worklist has run empty, what holds between two nodes holds of
/// the conditions that it found, with no node queued.
proof fn lemma_run_between(
    view: GraphView,
    origin: UniversalMarker,
    state: Propagation,
    limit: nat,
    trace: Seq<Seq<Outcome>>,
    at: int,
    sense: Sense,
)
    requires
        view.wf(),
        between(view, origin, state, sense),
        run_meets(view, state, limit, trace, at, meaning(sense)),
        run(view, state, limit, trace, at) is Some,
    ensures
        between(
            view,
            origin,
            Propagation { reached: run(view, state, limit, trace, at).unwrap(), queue: Seq::empty() },
            sense,
        ),
    decreases limit,
{
    if state.queue.len() == 0 {
        assert(state.queue =~= Seq::empty());
    } else {
        lemma_step_between(view, origin, state, trace[at], sense);
        lemma_run_between(
            view,
            origin,
            step(view, state, trace[at]),
            (limit - 1) as nat,
            trace,
            at + 1,
            sense,
        );
    }
}

/// The roots below a bound are the nodes below the bound that no edge enters.
pub proof fn lemma_roots_below(view: GraphView, bound: nat, node: usize)
    ensures
        roots_below(view, bound).contains(node) <==> (node < bound && view.is_root(node)),
    decreases bound,
{
    if bound > 0 {
        let rest = roots_below(view, (bound - 1) as nat);
        lemma_roots_below(view, (bound - 1) as nat, node);
        if view.is_root((bound - 1) as usize) {
            lemma_push_contains(rest, (bound - 1) as usize, node);
        }
    }
}

/// What holds between two nodes holds when the worklist starts.
proof fn lemma_start_between(view: GraphView, origin: UniversalMarker, sense: Sense)
    requires
        view.wf(),
    ensures
        between(view, origin, start(view, origin), sense),
{
    let state = start(view, origin);
    assert forall|root: usize| root < view.nodes() && #[trigger] view.is_root(root) implies
        state.reached.contains_key(root) && state.reached[root] == origin by {
        lemma_roots_below(view, view.nodes(), root);
    }
    assert forall|node: usize| #[trigger] state.reached.contains_key(node) implies node
        < view.nodes() && reachable(view, node) && (sense.meant && holds_in(
        state.reached[node],
        sense,
    ) ==> holds_on_some_path(view, origin, node, sense)) by {
        lemma_roots_below(view, view.nodes(), node);
        let path = Seq::<usize>::empty();
        assert(is_path(view, path, node, node));
        assert(is_root_path(view, node, path, node) && path_holds(view, path, sense));
    }
    assert forall|k: int| 0 <= k < state.queue.len() implies (#[trigger] state.queue[k])
        < view.nodes() && state.reached.contains_key(state.queue[k]) by {
        assert(roots(view)[k] == state.queue[k]);
        assert(roots(view).contains(state.queue[k]));
        lemma_roots_below(view, view.nodes(), state.queue[k]);
    }
}

/// Once every node that is reached has had its edges followed, every path
/// from a root ends in a node that is reached, and the marker of that node
/// holds wherever the marker holds for the roots and for every edge of the
/// path.
proof fn lemma_paths_are_covered(
    view: GraphView,
    origin: UniversalMarker,
    reached: Map<usize, UniversalMarker>,
    root: usize,
    path: Seq<usize>,
    node: usize,
    sense: Sense,
)
    requires
        between(view, origin, Propagation { reached, queue: Seq::empty() }, sense),
        is_root_path(view, root, path, node),
    ensures
        reached.contains_key(node),
        sense.meant && holds_in(origin, sense) && path_holds(view, path, sense) ==> holds_in(
            reached[node],
            sense,
        ),
    decreases path.len(),
{
    if path.len() > 0 {
        let last = path.last();
        let source = view.edges[last as int].source;
        lemma_paths_are_covered(view, origin, reached, root, path.drop_last(), source, sense);
        assert(!Seq::<usize>::empty().contains(source));
        assert(node_closed(view, reached, source, sense));
        assert(edge_closed(view, reached, last as int, reached[source], sense));
        if path_holds(view, path, sense) {
            assert forall|i: int| 0 <= i < path.drop_last().len() implies holds_in(
                view.edges[(#[trigger] path.drop_last()[i]) as int].weight,
                sense,
            ) by {
                assert(path.drop_last()[i] == path[i]);
            }
            assert(view.edges[path[path.len() - 1] as int].weight == view.edges[last as int].weight);
        }
    }
}

/// Any answers meet a requirement that asks for nothing.
proof fn lemma_walk_meets_nothing(
    state: Propagation,
    view: GraphView,
    marker: UniversalMarker,
    walk: Seq<usize>,
    from: int,
    row: Seq<Outcome>,
    sense: Sense,
)
    requires
        !sense.meant,
    ensures
        walk_meets(state, view, marker, walk, from, row, meaning(sense)),
    decreases walk.len() - from,
{
    if 0 <= from < walk.len() {
        lemma_walk_meets_nothing(
            record(state, view.edges[walk[from] as int].target, row[from]),
            view,
            marker,
            walk,
            from + 1,
            row,
            sense,
        );
    }
}

proof fn lemma_run_meets_nothing(
    view: GraphView,
    state: Propagation,
    limit: nat,
    trace: Seq<Seq<Outcome>>,
    at: int,
    sense: Sense,
)
    requires
        !sense.meant,
    ensures
        run_meets(view, state, limit, trace, at, meaning(sense)),
    decreases limit,
{
    if state.queue.len() != 0 && limit != 0 {
        lemma_walk_meets_nothing(
            Propagation { reached: state.reached, queue: state.queue.drop_last() },
            view,
            state.reached[state.queue.last()],
            view.outgoing[state.queue.last() as int],
            0,
            trace[at],
            sense,
        );
        lemma_run_meets_nothing(
            view,
            step(view, state, trace[at]),
            (limit - 1) as nat,
            trace,
            at + 1,
            sense,
        );
    }
}

/// Whatever the engine answers, the nodes for which the worklist finds a
/// condition are those that some path from a root leads to, and every root
/// keeps the condition of the roots.
pub proof fn law_reached_is_reachable(
    view: GraphView,
    origin: UniversalMarker,
    limit: nat,
    trace: Seq<Seq<Outcome>>,
    node: usize,
)
    requires
        view.wf(),
        run(view, start(view, origin), limit, trace, 0) is Some,
    ensures
        run(view, start(view, origin), limit, trace, 0).unwrap().contains_key(node) <==> reachable(
            view,
            node,
        ),
        node < view.nodes() && view.is_root(node) ==> run(
            view,
            start(view, origin),
            limit,
            trace,
            0,
        ).unwrap()[node] == origin,
{
    let sense = Sense { meant: false, conflict: false, env: arbitrary(), extras: arbitrary() };
    let reached = run(view, start(view, origin), limit, trace, 0).unwrap();
    lemma_start_between(view, origin, sense);
    lemma_run_meets_nothing(view, start(view, origin), limit, trace, 0, sense);
    lemma_run_between(view, origin, start(view, origin), limit, trace, 0, sense);
    if reachable(view, node) {
        let (root, path) = choose|root: usize, path: Seq<usize>|
            is_root_path(view, root, path, node);
        lemma_paths_are_covered(view, origin, reached, root, path, node, sense);
    }
}

/// Where every answer of the engine means what was asked for, each of the
/// two markers of the condition that the worklist finds for a node holds
/// exactly where that marker holds for the roots and for every edge of some
/// path from a root to the node.
pub proof fn law_condition_is_union_over_paths(
    view: GraphView,
    origin: UniversalMarker,
    limit: nat,
    trace: Seq<Seq<Outcome>>,
    node: usize,
    sense: Sense,
)
    requires
        view.wf(),
        sense.meant,
        run_meets(view, start(view, origin), limit, trace, 0, meaning(sense)),
        run(view, start(view, origin), limit, trace, 0) is Some,
        run(view, start(view, origin), limit, trace, 0).unwrap().contains_key(node),
    ensures
        holds_in(run(view, start(view, origin), limit, trace, 0).unwrap()[node], sense)
            == holds_on_some_path(view, origin, node, sense),
{
    let reached = run(view, start(view, origin), limit, trace, 0).unwrap();
    lemma_start_between(view, origin, sense);
    lemma_run_between(view, origin, start(view, origin), limit, trace, 0, sense);
    if holds_on_some_path(view, origin, node, sense) {
        let (root, path) = choose|root: usize, path: Seq<usize>| #[trigger]
            is_root_path(view, root, path, node) && path_holds(view, path, sense);
        lemma_paths_are_covered(view, origin, reached, root, path, node, sense);
    }
}

/// One of the first `count` forks holds.
pub open spec fn a_fork_holds(fork_markers: Seq<UniversalMarker>, count: int, sense: Sense) -> bool {
    exists|i: int| 0 <= i < count && holds_in(#[trigger] fork_markers[i], sense)
}

/// Where each union that the engine built of the forks means one, and the
/// marker that is always false does not hold, each union holds exactly where
/// one of the forks does that went into it.
proof fn lemma_fork_unions(
    fork_markers: Seq<UniversalMarker>,
    unions: Seq<UniversalMarker>,
    count: int,
    sense: Sense,
)
    requires
        0 <= count <= fork_markers.len(),
        unions.len() == fork_markers.len() + 1,
        !holds_in(unions[0], sense),
        forall|i: int|
            0 <= i < fork_markers.len() ==> holds_in(#[trigger] unions[i + 1], sense) == (holds_in(
                unions[i],
                sense,
            ) || holds_in(fork_markers[i], sense)),
    ensures
        holds_in(unions[count], sense) == a_fork_holds(fork_markers, count, sense),
    decreases count,
{
    if count > 0 {
        lemma_fork_unions(fork_markers, unions, count - 1, sense);
        assert(holds_in(unions[(count - 1) + 1], sense) == (holds_in(unions[count - 1], sense)
            || holds_in(fork_markers[count - 1], sense)));
        if a_fork_holds(fork_markers, count, sense) {
            let i = choose|i: int| 0 <= i < count && holds_in(#[trigger] fork_markers[i], sense);
            if i < count - 1 {
                assert(a_fork_holds(fork_markers, count - 1, sense));
            }
        }
    }
}

/// With forks, the condition of the roots holds exactly where one of the
/// forks holds, where each union that the engine built of them means one and
/// the marker that is always false does not hold.
pub proof fn law_root_condition_meaning(
    fork_markers: Seq<UniversalMarker>,
    unions: Seq<UniversalMarker>,
    root: UniversalMarker,
    sense: Sense,
)
    requires
        fork_markers.len() > 0,
        is_root_condition(fork_markers, unions, root),
        !holds_in(unions[0], sense),
        forall|i: int|
            0 <= i < fork_markers.len() ==> holds_in(#[trigger] unions[i + 1], sense) == (holds_in(
                unions[i],
                sense,
            ) || holds_in(fork_markers[i], sense)),
    ensures
        holds_in(root, sense) == a_fork_holds(fork_markers, fork_markers.len() as int, sense),
{
    lemma_fork_unions(fork_markers, unions, fork_markers.len() as int, sense);
}

/// The sense of the PEP 508 marker or of the conflict marker in an
/// environment and with extras switched on.
pub open spec fn sense_of(conflict: bool, env: MarkerEnvironment, extras: Seq<ExtraName>) -> Sense {
    Sense { meant: true, conflict, env, extras }
}

/// Where every answer of the engine means what was asked for, in both of the
/// two markers, the condition that the worklist finds for a node holds
/// wherever the condition of the roots and the conditions of all the edges
/// of some path from a root to the node hold. It may hold elsewhere too:
/// where the PEP 508 markers hold along one path and the conflict markers
/// along another.
pub proof fn law_condition_covers_every_path(
    view: GraphView,
    origin: UniversalMarker,
    limit: nat,
    trace: Seq<Seq<Outcome>>,
    root: usize,
    path: Seq<usize>,
    node: usize,
    env: MarkerEnvironment,
    extras: Seq<ExtraName>,
)
    requires
        view.wf(),
        run_meets(view, start(view, origin), limit, trace, 0, meaning(sense_of(false, env, extras))),
        run_meets(view, start(view, origin), limit, trace, 0, meaning(sense_of(true, env, extras))),
        run(view, start(view, origin), limit, trace, 0) is Some,
        is_root_path(view, root, path, node),
        origin.holds(env, extras),
        forall|i: int|
            0 <= i < path.len() ==> view.edges[(#[trigger] path[i]) as int].weight.holds(
                env,
                extras,
            ),
    ensures
        run(view, start(view, origin), limit, trace, 0).unwrap().contains_key(node),
        run(view, start(view, origin), limit, trace, 0).unwrap()[node].holds(env, extras),
{
    law_reached_is_reachable(view, origin, limit, trace, node);
    law_condition_is_union_over_paths(view, origin, limit, trace, node, sense_of(false, env, extras));
    law_condition_is_union_over_paths(view, origin, limit, trace, node, sense_of(true, env, extras));
    assert(is_root_path(view, root, path, node) && path_holds(
        view,
        path,
        sense_of(false, env, extras),
    ));
    assert(is_root_path(view, root, path, node) && path_holds(
        view,
        path,
        sense_of(true, env, extras),
    ));
}

/// Every path from a root to one of the two nodes of a cycle that is entered
/// by one edge only passes that edge, and a path to the far node passes the
/// edge that leads there as well.
proof fn lemma_paths_into_cycle(
    view: GraphView,
    root: usize,
    path: Seq<usize>,
    node: usize,
    entry: usize,
    forth: usize,
    back: usize,
    sense: Sense,
)
    requires
        is_cycle_with_entry(view, entry, forth, back),
        node == view.edges[entry as int].target || node == view.edges[forth as int].target,
        is_root_path(view, root, path, node),
        path_holds(view, path, sense),
    ensures
        holds_in(view.edges[entry as int].weight, sense),
        node == view.edges[forth as int].target ==> holds_in(view.edges[forth as int].weight, sense),
    decreases path.len(),
{
    if path.len() == 0 {
        assert(view.edges[entry as int].target != root);
        assert(view.edges[forth as int].target != root);
    } else {
        let last = path.last();
        assert(path[path.len() - 1] == last);
        assert(view.edges[last as int].target == node);
        assert forall|i: int| 0 <= i < path.drop_last().len() implies holds_in(
            view.edges[(#[trigger] path.drop_last()[i]) as int].weight,
            sense,
        ) by {
            assert(path.drop_last()[i] == path[i]);
        }
        if last != entry {
            lemma_paths_into_cycle(
                view,
                root,
                path.drop_last(),
                view.edges[last as int].source,
                entry,
                forth,
                back,
                sense,
            );
        }
    }
}

/// A root leads by the edge `entry` into a cycle of two nodes, which the
/// edges `forth` and `back` join, and no other edge enters the two nodes.
pub open spec fn is_cycle_with_entry(view: GraphView, entry: usize, forth: usize, back: usize) -> bool {
    &&& entry < view.edges.len()
    &&& forth < view.edges.len()
    &&& back < view.edges.len()
    &&& view.edges[entry as int].source < view.nodes()
    &&& view.is_root(view.edges[entry as int].source)
    &&& view.edges[forth as int].source == view.edges[entry as int].target
    &&& view.edges[back as int].source == view.edges[forth as int].target
    &&& view.edges[back as int].target == view.edges[entry as int].target
    &&& view.edges[forth as int].target != view.edges[entry as int].target
    &&& forall|e: int|
        0 <= e < view.edges.len() && (#[trigger] view.edges[e]).target
            == view.edges[entry as int].target ==> e == entry || e == back
    &&& forall|e: int|
        0 <= e < view.edges.len() && (#[trigger] view.edges[e]).target
            == view.edges[forth as int].target ==> e == forth
}

/// Going round a cycle adds nothing: where every answer of the engine means
/// what was asked for and the worklist settles, the node by which the cycle
/// is entered holds where the roots and the entering edge hold, and the far
/// node where the edge that leads to it holds as well.
pub proof fn law_cycle_adds_nothing(
    view: GraphView,
    origin: UniversalMarker,
    limit: nat,
    trace: Seq<Seq<Outcome>>,
    entry: usize,
    forth: usize,
    back: usize,
    sense: Sense,
)
    requires
        view.wf(),
        sense.meant,
        run_meets(view, start(view, origin), limit, trace, 0, meaning(sense)),
        run(view, start(view, origin), limit, trace, 0) is Some,
        is_cycle_with_entry(view, entry, forth, back),
    ensures
        run(view, start(view, origin), limit, trace, 0).unwrap().contains_key(
            view.edges[entry as int].target,
        ),
        run(view, start(view, origin), limit, trace, 0).unwrap().contains_key(
            view.edges[forth as int].target,
        ),
        holds_in(
            run(view, start(view, origin), limit, trace, 0).unwrap()[view.edges[entry as int].target],
            sense,
        ) == (holds_in(origin, sense) && holds_in(view.edges[entry as int].weight, sense)),
        holds_in(
            run(view, start(view, origin), limit, trace, 0).unwrap()[view.edges[forth as int].target],
            sense,
        ) == (holds_in(origin, sense) && holds_in(view.edges[entry as int].weight, sense)
            && holds_in(view.edges[forth as int].weight, sense)),
{
    let near = view.edges[entry as int].target;
    let far = view.edges[forth as int].target;
    let start_at = view.edges[entry as int].source;
    let to_near = Seq::<usize>::empty().push(entry);
    let to_far = to_near.push(forth);
    assert(to_near.drop_last() =~= Seq::<usize>::empty());
    assert(to_far.drop_last() =~= to_near);
    assert(is_path(view, Seq::<usize>::empty(), start_at, start_at));
    assert(is_root_path(view, start_at, to_near, near));
    assert(is_root_path(view, start_at, to_far, far));
    law_reached_is_reachable(view, origin, limit, trace, near);
    law_reached_is_reachable(view, origin, limit, trace, far);
    law_condition_is_union_over_paths(view, origin, limit, trace, near, sense);
    law_condition_is_union_over_paths(view, origin, limit, trace, far, sense);
    if holds_on_some_path(view, origin, near, sense) {
        let (root, path) = choose|root: usize, path: Seq<usize>| #[trigger]
            is_root_path(view, root, path, near) && path_holds(view, path, sense);
        lemma_paths_into_cycle(view, root, path, near, entry, forth, back, sense);
    }
    if holds_on_some_path(view, origin, far, sense) {
        let (root, path) = choose|root: usize, path: Seq<usize>| #[trigger]
            is_root_path(view, root, path, far) && path_holds(view, path, sense);
        lemma_paths_into_cycle(view, root, path, far, entry, forth, back, sense);
    }
    if holds_in(origin, sense) && holds_in(view.edges[entry as int].weight, sense) {
        assert(is_root_path(view, start_at, to_near, near) && path_holds(view, to_near, sense));
        if holds_in(view.edges[forth as int].weight, sense) {
            assert(is_root_path(view, start_at, to_far, far) && path_holds(view, to_far, sense));
        }
    }
}

/// Where every answer of the engine means what was asked for and a node is
/// entered by two edges that both leave a root, and by no other edge, each
/// of the two markers of the condition that the worklist finds for the node
/// holds exactly where that marker holds for the roots and for one of the two
/// edges.
pub proof fn law_union_of_two_edges(
    view: GraphView,
    origin: UniversalMarker,
    limit: nat,
    trace: Seq<Seq<Outcome>>,
    first: usize,
    second: usize,
    sense: Sense,
)
    requires
        view.wf(),
        sense.meant,
        run_meets(view, start(view, origin), limit, trace, 0, meaning(sense)),
        run(view, start(view, origin), limit, trace, 0) is Some,
        first < view.edges.len(),
        second < view.edges.len(),
        view.edges[first as int].target == view.edges[second as int].target,
        view.is_root(view.edges[first as int].source),
        view.is_root(view.edges[second as int].source),
        forall|e: int|
            0 <= e < view.edges.len() && (#[trigger] view.edges[e]).target
                == view.edges[first as int].target ==> e == first || e == second,
    ensures
        run(view, start(view, origin), limit, trace, 0).unwrap().contains_key(
            view.edges[first as int].target,
        ),
        holds_in(
            run(view, start(view, origin), limit, trace, 0).unwrap()[view.edges[first as int].target],
            sense,
        ) == (holds_in(origin, sense) && (holds_in(view.edges[first as int].weight, sense)
            || holds_in(view.edges[second as int].weight, sense))),
{
    let node = view.edges[first as int].target;
    let by_first = Seq::<usize>::empty().push(first);
    let by_second = Seq::<usize>::empty().push(second);
    assert(by_first.drop_last() =~= Seq::<usize>::empty());
    assert(by_second.drop_last() =~= Seq::<usize>::empty());
    assert(is_path(view, Seq::<usize>::empty(), view.edges[first as int].source, view.edges[first as int].source));
    assert(is_path(view, Seq::<usize>::empty(), view.edges[second as int].source, view.edges[second as int].source));
    assert(is_root_path(view, view.edges[first as int].source, by_first, node));
    assert(is_root_path(view, view.edges[second as int].source, by_second, node));
    law_reached_is_reachable(view, origin, limit, trace, node);
    law_condition_is_union_over_paths(view, origin, limit, trace, node, sense);
    if holds_on_some_path(view, origin, node, sense) {
        let (root, path) = choose|root: usize, path: Seq<usize>| #[trigger]
            is_root_path(view, root, path, node) && path_holds(view, path, sense);
        if path.len() == 0 {
            assert(view.edges[first as int].target != root);
        } else {
            assert(view.edges[path.last() as int].target == node);
            assert(path[path.len() - 1] == path.last());
        }
    }
    if holds_in(origin, sense) {
        if holds_in(view.edges[first as int].weight, sense) {
            assert(is_root_path(view, view.edges[first as int].source, by_first, node) && path_holds(
                view,
                by_first,
                sense,
            ));
        }
        if holds_in(view.edges[second as int].weight, sense) {
            assert(is_root_path(view, view.edges[second as int].source, by_second, node)
                && path_holds(view, by_second, sense));
        }
    }
}

} // verus!
