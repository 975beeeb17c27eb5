//! When the worklist is sure to settle.
//!
//! Whether the worklist settles on a graph in which paths meet depends on the
//! engine: a node is taken up again whenever its condition changes, and only
//! the engine decides when a union changes nothing. In two cases nothing
//! depends on the engine, and the worklist has run empty when as many nodes
//! were taken up as the graph has.
//!
//! Where no two edges enter the same node, every node is reached by one edge
//! at most, so it is queued once.
//!
//! Where the conditions are forced, every edge into a node brings the same
//! condition, whatever the engine remembers: its intersection is one that the
//! engine settles before it looks into its tables. The union with what the
//! node had is then a union of a marker with itself, which is that marker,
//! so again every node is queued once, cycles or not. This is so where every
//! edge is followed always, and where all edges have the same weight and the
//! roots are reached always.

use crate::graph::GraphView;
use crate::paths::lemma_roots_below;
use crate::reachability::{
    record, relax_walk, roots_below, run, run_meets, settled, start, step, step_limit, stored,
    walk_meets, Outcome, Propagation,
};
use crate::universal_marker::{group_universal_marker, UniversalMarker};
use vstd::prelude::*;

verus! {

broadcast use group_universal_marker;

/// No two edges enter the same node.
pub open spec fn single_entry(view: GraphView) -> bool {
    forall|a: int, b: int|
        0 <= a < view.edges.len() && 0 <= b < view.edges.len() && (#[trigger] view.edges[a]).target
            == (#[trigger] view.edges[b]).target ==> a == b
}

/// How many of the nodes below `bound` are not reached.
pub open spec fn not_reached(reached: Map<usize, UniversalMarker>, bound: nat) -> nat
    decreases bound,
{
    if bound == 0 {
        0
    } else {
        not_reached(reached, (bound - 1) as nat) + if reached.contains_key((bound - 1) as usize) {
            0nat
        } else {
            1nat
        }
    }
}

/// How many nodes the worklist still has to take up at most: those that wait
/// and those that are not reached yet.
pub open spec fn outstanding(view: GraphView, state: Propagation) -> nat {
    not_reached(state.reached, view.nodes()) + state.queue.len()
}

/// What holds of the worklist between two nodes where no two edges enter the
/// same node: no node waits twice, and a node is reached by an edge only once
/// the source of the edge has been taken up.
pub open spec fn taken_up_once(view: GraphView, state: Propagation) -> bool {
    &&& state.queue.no_duplicates()
    &&& forall|k: int|
        0 <= k < state.queue.len() ==> (#[trigger] state.queue[k]) < view.nodes()
            && state.reached.contains_key(state.queue[k])
    &&& forall|e: int|
        0 <= e < view.edges.len() && state.reached.contains_key((#[trigger] view.edges[e]).target)
            ==> state.reached.contains_key(view.edges[e].source) && !state.queue.contains(
            view.edges[e].source,
        )
}

/// What holds of the worklist while the edges of `parent` are followed, once
/// the first `done` edges of the walk have been.
pub open spec fn taking_up(
    view: GraphView,
    state: Propagation,
    parent: usize,
    walk: Seq<usize>,
    done: int,
) -> bool {
    &&& state.queue.no_duplicates()
    &&& forall|k: int|
        0 <= k < state.queue.len() ==> (#[trigger] state.queue[k]) < view.nodes()
            && state.reached.contains_key(state.queue[k])
    &&& state.reached.contains_key(parent)
    &&& !state.queue.contains(parent)
    &&& forall|e: int|
        0 <= e < view.edges.len() && state.reached.contains_key((#[trigger] view.edges[e]).target)
            ==> state.reached.contains_key(view.edges[e].source) && !state.queue.contains(
            view.edges[e].source,
        ) && (view.edges[e].source == parent ==> exists|i: int|
            0 <= i < done && #[trigger] walk[i] == e)
}

proof fn lemma_not_reached_insert(
    reached: Map<usize, UniversalMarker>,
    bound: nat,
    node: usize,
    marker: UniversalMarker,
)
    requires
        !reached.contains_key(node),
        bound <= usize::MAX,
    ensures
        not_reached(reached.insert(node, marker), bound) + (if node < bound {
            1nat
        } else {
            0nat
        }) == not_reached(reached, bound),
    decreases bound,
{
    if bound > 0 {
        lemma_not_reached_insert(reached, (bound - 1) as nat, node, marker);
    }
}

/// Where no two edges enter the same node, the target of the next edge of the
/// walk is not reached yet: to follow the edge reaches and queues it.
proof fn lemma_record_once(
    view: GraphView,
    state: Propagation,
    parent: usize,
    walk: Seq<usize>,
    done: int,
    outcome: Outcome,
)
    requires
        view.wf(),
        single_entry(view),
        parent < view.nodes(),
        view.is_walk_from(parent, walk),
        0 <= done < walk.len(),
        taking_up(view, state, parent, walk, done),
    ensures
        taking_up(
            view,
            record(state, view.edges[walk[done] as int].target, outcome),
            parent,
            walk,
            done + 1,
        ),
        outstanding(view, record(state, view.edges[walk[done] as int].target, outcome))
            == outstanding(view, state),
{
    let target = view.edges[walk[done] as int].target;
    lemma_not_reached_insert(state.reached, view.nodes(), target, outcome.candidate);
}

proof fn lemma_relax_walk_once(
    view: GraphView,
    state: Propagation,
    parent: usize,
    walk: Seq<usize>,
    done: int,
    row: Seq<Outcome>,
)
    requires
        view.wf(),
        single_entry(view),
        parent < view.nodes(),
        view.is_walk_from(parent, walk),
        0 <= done <= walk.len(),
        taking_up(view, state, parent, walk, done),
    ensures
        taking_up(
            view,
            relax_walk(state, view, walk, done, row),
            parent,
            walk,
            walk.len() as int,
        ),
        outstanding(view, relax_walk(state, view, walk, done, row)) == outstanding(view, state),
    decreases walk.len() - done,
{
    if done < walk.len() {
        lemma_record_once(view, state, parent, walk, done, row[done]);
        lemma_relax_walk_once(
            view,
            record(state, view.edges[walk[done] as int].target, row[done]),
            parent,
            walk,
            done + 1,
            row,
        );
    }
}

/// To take up a node leaves one node less outstanding.
proof fn lemma_step_once(view: GraphView, state: Propagation, row: Seq<Outcome>)
    requires
        view.wf(),
        single_entry(view),
        state.queue.len() > 0,
        taken_up_once(view, state),
    ensures
        taken_up_once(view, step(view, state, row)),
        outstanding(view, step(view, state, row)) + 1 == outstanding(view, state),
{
    let parent = state.queue.last();
    let walk = view.outgoing[parent as int];
    let popped = Propagation { reached: state.reached, queue: state.queue.drop_last() };
    lemma_relax_walk_once(view, popped, parent, walk, 0, row);
}

/// Where no two edges enter the same node, the worklist runs empty within as
/// many steps as nodes are outstanding.
proof fn lemma_run_once(
    view: GraphView,
    state: Propagation,
    limit: nat,
    trace: Seq<Seq<Outcome>>,
    at: int,
)
    requires
        view.wf(),
        single_entry(view),
        taken_up_once(view, state),
        outstanding(view, state) <= limit,
    ensures
        run(view, state, limit, trace, at) is Some,
    decreases limit,
{
    if state.queue.len() != 0 {
        lemma_step_once(view, state, trace[at]);
        lemma_run_once(view, step(view, state, trace[at]), (limit - 1) as nat, trace, at + 1);
    }
}

proof fn lemma_roots_distinct(view: GraphView, bound: nat)
    requires
        bound <= usize::MAX,
    ensures
        roots_below(view, bound).no_duplicates(),
    decreases bound,
{
    if bound > 0 {
        lemma_roots_distinct(view, (bound - 1) as nat);
        lemma_roots_below(view, (bound - 1) as nat, (bound - 1) as usize);
    }
}

proof fn lemma_outstanding_at_start(view: GraphView, origin: UniversalMarker, bound: nat)
    requires
        bound <= view.nodes(),
        view.nodes() <= usize::MAX,
    ensures
        not_reached(start(view, origin).reached, bound) + roots_below(view, bound).len()
            == bound,
    decreases bound,
{
    if bound > 0 {
        lemma_outstanding_at_start(view, origin, (bound - 1) as nat);
        lemma_roots_below(view, view.nodes(), (bound - 1) as usize);
    }
}

/// The limit decides whether the worklist settles, not what it finds: with a
/// higher limit it settles too, on the same conditions.
pub proof fn law_limit_only_decides_success(
    view: GraphView,
    state: Propagation,
    limit: nat,
    higher: nat,
    trace: Seq<Seq<Outcome>>,
    at: int,
)
    requires
        run(view, state, limit, trace, at) is Some,
        limit <= higher,
    ensures
        run(view, state, higher, trace, at) == run(view, state, limit, trace, at),
    decreases limit,
{
    if state.queue.len() != 0 {
        law_limit_only_decides_success(
            view,
            step(view, state, trace[at]),
            (limit - 1) as nat,
            (higher - 1) as nat,
            trace,
            at + 1,
        );
    }
}

/// The limit that is set for a graph by its size lets the worklist take up
/// at least as many nodes as the graph has.
pub proof fn law_step_limit_covers_the_nodes(nodes: nat, edges: nat)
    requires
        nodes <= usize::MAX,
    ensures
        nodes <= step_limit(nodes, edges),
{
}

/// On a graph in which no two edges enter the same node, the worklist settles
/// whatever the engine answers, once it may take up as many nodes as the
/// graph has.
pub proof fn law_settles_where_no_paths_meet(
    view: GraphView,
    origin: UniversalMarker,
    limit: nat,
    trace: Seq<Seq<Outcome>>,
)
    requires
        view.wf(),
        single_entry(view),
        view.nodes() <= limit,
    ensures
        run(view, start(view, origin), limit, trace, 0) is Some,
{
    let state = start(view, origin);
    lemma_roots_distinct(view, view.nodes());
    lemma_outstanding_at_start(view, origin, view.nodes());
    assert forall|k: int| 0 <= k < state.queue.len() implies (#[trigger] state.queue[k])
        < view.nodes() && state.reached.contains_key(state.queue[k]) by {
        lemma_roots_below(view, view.nodes(), state.queue[k]);
    }
    assert forall|e: int|
        0 <= e < view.edges.len() && state.reached.contains_key(
            (#[trigger] view.edges[e]).target,
        ) implies state.reached.contains_key(view.edges[e].source) && !state.queue.contains(
        view.edges[e].source,
    ) by {
        lemma_roots_below(view, view.nodes(), view.edges[e].target);
    }
    lemma_run_once(view, state, limit, trace, 0);
}

/// The conditions `labels`, one for each node, are those that the engine is
/// bound to find: the roots have the condition `origin`, and along every edge
/// any intersection of the edge's weight with the condition of its source is
/// the condition of its target.
pub open spec fn forced(view: GraphView, origin: UniversalMarker, labels: Seq<UniversalMarker>) -> bool {
    &&& labels.len() == view.nodes()
    &&& forall|node: usize|
        node < view.nodes() && #[trigger] view.is_root(node) ==> labels[node as int] == origin
    &&& forall|e: int, candidate: UniversalMarker|
        0 <= e < view.edges.len() && #[trigger] candidate.is_intersection_of(
            view.edges[e].weight,
            labels[view.edges[e].source as int],
        ) ==> candidate == labels[view.edges[e].target as int]
}

/// Every node that is reached has the condition that `labels` gives it, and
/// every node that waits is reached.
pub open spec fn labelled(view: GraphView, labels: Seq<UniversalMarker>, state: Propagation) -> bool {
    &&& forall|k: int|
        0 <= k < state.queue.len() ==> (#[trigger] state.queue[k]) < view.nodes()
            && state.reached.contains_key(state.queue[k])
    &&& forall|node: usize| #[trigger]
        state.reached.contains_key(node) ==> node < view.nodes() && state.reached[node]
            == labels[node as int]
}

/// Where the conditions are forced, to follow an edge into a node that was
/// reached before changes nothing, and to follow one into a node that was not
/// reaches and queues it.
proof fn lemma_record_forced(
    view: GraphView,
    origin: UniversalMarker,
    labels: Seq<UniversalMarker>,
    state: Propagation,
    edge: usize,
    outcome: Outcome,
)
    requires
        view.wf(),
        forced(view, origin, labels),
        edge < view.edges.len(),
        labelled(view, labels, state),
        settled()(
            view.edges[edge as int].weight,
            labels[view.edges[edge as int].source as int],
            stored(state, view.edges[edge as int].target),
            outcome,
        ),
    ensures
        labelled(view, labels, record(state, view.edges[edge as int].target, outcome)),
        outstanding(view, record(state, view.edges[edge as int].target, outcome)) == outstanding(
            view,
            state,
        ),
{
    let target = view.edges[edge as int].target;
    if state.reached.contains_key(target) {
        assert(outcome.merged@ == state.reached[target]@);
    } else {
        lemma_not_reached_insert(state.reached, view.nodes(), target, outcome.candidate);
    }
}

proof fn lemma_relax_walk_forced(
    view: GraphView,
    origin: UniversalMarker,
    labels: Seq<UniversalMarker>,
    state: Propagation,
    parent: usize,
    walk: Seq<usize>,
    done: int,
    row: Seq<Outcome>,
)
    requires
        view.wf(),
        forced(view, origin, labels),
        parent < view.nodes(),
        view.is_walk_from(parent, walk),
        0 <= done <= walk.len(),
        labelled(view, labels, state),
        walk_meets(state, view, labels[parent as int], walk, done, row, settled()),
    ensures
        labelled(view, labels, relax_walk(state, view, walk, done, row)),
        outstanding(view, relax_walk(state, view, walk, done, row)) == outstanding(view, state),
    decreases walk.len() - done,
{
    if done < walk.len() {
        lemma_record_forced(view, origin, labels, state, walk[done], row[done]);
        lemma_relax_walk_forced(
            view,
            origin,
            labels,
            record(state, view.edges[walk[done] as int].target, row[done]),
            parent,
            walk,
            done + 1,
            row,
        );
    }
}

/// Where the conditions are forced, the worklist runs empty within as many
/// steps as nodes are outstanding, and finds the forced conditions.
proof fn lemma_run_forced(
    view: GraphView,
    origin: UniversalMarker,
    labels: Seq<UniversalMarker>,
    state: Propagation,
    limit: nat,
    trace: Seq<Seq<Outcome>>,
    at: int,
)
    requires
        view.wf(),
        forced(view, origin, labels),
        labelled(view, labels, state),
        outstanding(view, state) <= limit,
        run_meets(view, state, limit, trace, at, settled()),
    ensures
        run(view, state, limit, trace, at) matches Some(found) && forall|node: usize| #[trigger]
            found.contains_key(node) ==> node < view.nodes() && found[node] == labels[node as int],
    decreases limit,
{
    if state.queue.len() != 0 {
        let parent = state.queue.last();
        let popped = Propagation { reached: state.reached, queue: state.queue.drop_last() };
        lemma_relax_walk_forced(
            view,
            origin,
            labels,
            popped,
            parent,
            view.outgoing[parent as int],
            0,
            trace[at],
        );
        lemma_run_forced(
            view,
            origin,
            labels,
            step(view, state, trace[at]),
            (limit - 1) as nat,
            trace,
            at + 1,
        );
    }
}

/// Where the conditions of the nodes are forced, the worklist settles on
/// them, on whatever graph and whatever the engine remembers, once it may
/// take up as many nodes as the graph has: no node is taken up twice.
pub proof fn law_settles_on_forced_conditions(
    view: GraphView,
    origin: UniversalMarker,
    labels: Seq<UniversalMarker>,
    limit: nat,
    trace: Seq<Seq<Outcome>>,
)
    requires
        view.wf(),
        forced(view, origin, labels),
        view.nodes() <= limit,
        run_meets(view, start(view, origin), limit, trace, 0, settled()),
    ensures
        run(view, start(view, origin), limit, trace, 0) matches Some(found) && forall|node: usize| #[trigger]
            found.contains_key(node) ==> node < view.nodes() && found[node] == labels[node as int],
{
    let state = start(view, origin);
    lemma_outstanding_at_start(view, origin, view.nodes());
    assert forall|k: int| 0 <= k < state.queue.len() implies (#[trigger] state.queue[k])
        < view.nodes() && state.reached.contains_key(state.queue[k]) by {
        lemma_roots_below(view, view.nodes(), state.queue[k]);
    }
    assert forall|node: usize| #[trigger] state.reached.contains_key(node) implies node
        < view.nodes() && state.reached[node] == labels[node as int] by {
        lemma_roots_below(view, view.nodes(), node);
    }
    lemma_run_forced(view, origin, labels, state, limit, trace, 0);
}

/// Every edge of the graph is followed always: both markers of its weight
/// are trivially true.
pub open spec fn unconditional(view: GraphView) -> bool {
    forall|e: int| 0 <= e < view.edges.len() ==> (#[trigger] view.edges[e]).weight.spec_is_true()
}

/// On a graph whose edges are all followed always, the worklist settles,
/// cycles or not, and every node that is reached has the condition of the
/// roots.
pub proof fn law_unconditional_edges_hand_on_the_root_condition(
    view: GraphView,
    origin: UniversalMarker,
    limit: nat,
    trace: Seq<Seq<Outcome>>,
)
    requires
        view.wf(),
        unconditional(view),
        view.nodes() <= limit,
        run_meets(view, start(view, origin), limit, trace, 0, settled()),
    ensures
        run(view, start(view, origin), limit, trace, 0) matches Some(found) && forall|node: usize| #[trigger]
            found.contains_key(node) ==> found[node] == origin,
{
    let labels = Seq::new(view.nodes(), |n: int| origin);
    assert forall|e: int, candidate: UniversalMarker|
        0 <= e < view.edges.len() && #[trigger] candidate.is_intersection_of(
            view.edges[e].weight,
            labels[view.edges[e].source as int],
        ) implies candidate == labels[view.edges[e].target as int] by {
        assert(candidate@ == origin@);
    }
    law_settles_on_forced_conditions(view, origin, labels, limit, trace);
}

/// On a graph whose edges all have the same weight and whose roots are
/// reached always, the worklist settles, cycles or not, and every node that
/// is reached and no root has that weight for its condition.
pub proof fn law_like_edges_hand_on_their_weight(
    view: GraphView,
    origin: UniversalMarker,
    weight: UniversalMarker,
    limit: nat,
    trace: Seq<Seq<Outcome>>,
)
    requires
        view.wf(),
        origin.spec_is_true(),
        forall|e: int| 0 <= e < view.edges.len() ==> (#[trigger] view.edges[e]).weight == weight,
        view.nodes() <= limit,
        run_meets(view, start(view, origin), limit, trace, 0, settled()),
    ensures
        run(view, start(view, origin), limit, trace, 0) matches Some(found) && forall|node: usize| #[trigger]
            found.contains_key(node) ==> found[node] == if view.is_root(node) {
                origin
            } else {
                weight
            },
{
    let labels = Seq::new(
        view.nodes(),
        |n: int|
            if view.is_root(n as usize) {
                origin
            } else {
                weight
            },
    );
    assert forall|e: int, candidate: UniversalMarker|
        0 <= e < view.edges.len() && #[trigger] candidate.is_intersection_of(
            view.edges[e].weight,
            labels[view.edges[e].source as int],
        ) implies candidate == labels[view.edges[e].target as int] by {
        assert(candidate@ == weight@);
    }
    law_settles_on_forced_conditions(view, origin, labels, limit, trace);
}

} // verus!
