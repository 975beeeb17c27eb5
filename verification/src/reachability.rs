//! Under which conditions each node of a dependency graph is reached from a
//! root.
//!
//! The condition of a node is the union, over the paths that lead to it from a
//! root, of the intersection of the conditions of the edges on the path. It is
//! computed by a worklist: whenever the condition of a node changes, the node
//! is taken up again and its children are brought up to date.
//!
//! Intersections and unions are the engine's, and which marker the engine
//! hands back for one is not known beforehand. The worklist is therefore
//! described for given answers of the engine: an [`Outcome`] holds the two
//! answers for one edge, and [`run`] says what the worklist finds if the
//! engine answers as a trace of outcomes says.

use crate::graph::{view_of, Adjacency, DependencyGraph, GraphView};
use crate::paths::{law_reached_is_reachable, reachable};
use crate::settling::{
    law_settles_where_no_paths_meet, law_unconditional_edges_hand_on_the_root_condition,
    single_entry, unconditional,
};
use crate::universal_marker::{group_universal_marker, UniversalMarker};
use std::collections::HashMap;
use vstd::prelude::*;
use vstd::std_specs::hash::group_hash_axioms;

verus! {

broadcast use {group_hash_axioms, group_universal_marker};

/// The worklist gave out before every node had settled.
#[derive(Debug, Clone, Copy)]
pub enum ReachabilityError {
    /// More nodes were taken up than the limit allows.
    StepLimitExceeded { limit: usize },
}

/// The state of the worklist: the condition found so far for each node that
/// was reached, and the nodes that still have to be taken up, last one first.
pub struct Propagation {
    pub reached: Map<usize, UniversalMarker>,
    pub queue: Seq<usize>,
}

/// The roots among the nodes below `bound`, in rising order.
pub open spec fn roots_below(view: GraphView, bound: nat) -> Seq<usize>
    decreases bound,
{
    if bound == 0 {
        Seq::empty()
    } else {
        let rest = roots_below(view, (bound - 1) as nat);
        if view.is_root((bound - 1) as usize) {
            rest.push((bound - 1) as usize)
        } else {
            rest
        }
    }
}

/// The roots of a graph, in rising order.
pub open spec fn roots(view: GraphView) -> Seq<usize> {
    roots_below(view, view.nodes())
}

/// What the engine answered while one edge was followed: the intersection of
/// the edge's condition with that of its source, and the union of that with
/// the condition that the target had. The second is of no account where the
/// target had none.
pub struct Outcome {
    pub candidate: UniversalMarker,
    pub merged: UniversalMarker,
}

/// The marker `root` is the condition of the roots: without forks the marker
/// that is always true, and else what the engine made of the union of the
/// forks. `unions` holds the unions that the engine built up from the marker
/// that is always false, one fork after the other, of which `root` is the
/// last.
pub open spec fn is_root_condition(
    fork_markers: Seq<UniversalMarker>,
    unions: Seq<UniversalMarker>,
    root: UniversalMarker,
) -> bool {
    if fork_markers.len() == 0 {
        root == UniversalMarker::spec_always()
    } else {
        &&& unions.len() == fork_markers.len() + 1
        &&& unions[0] == UniversalMarker::spec_never()
        &&& unions[0].spec_is_never()
        &&& root == unions[fork_markers.len() as int]
        &&& forall|i: int|
            0 <= i < fork_markers.len() ==> (#[trigger] unions[i + 1]).is_union_of(
                unions[i],
                fork_markers[i],
            )
    }
}

/// The state in which the worklist starts: every root has the condition of
/// the roots and waits to be taken up.
pub open spec fn start(view: GraphView, root: UniversalMarker) -> Propagation {
    Propagation {
        reached: Map::new(|node: usize| roots(view).contains(node), |node: usize| root),
        queue: roots(view),
    }
}

/// What becomes of the condition of the target of an edge: a target that was
/// not reached before gets the candidate; one that was gets the union with
/// what it had, if that differs from what it had. Where nothing is given, the
/// target keeps what it has and is not queued.
pub open spec fn decided(
    stored: Option<UniversalMarker>,
    candidate: UniversalMarker,
    merged: UniversalMarker,
) -> Option<UniversalMarker> {
    match stored {
        None => Some(candidate),
        Some(existing) => if merged != existing {
            Some(merged)
        } else {
            None
        },
    }
}

/// The condition that a node has, if it is reached.
pub open spec fn stored(state: Propagation, node: usize) -> Option<UniversalMarker> {
    if state.reached.contains_key(node) {
        Some(state.reached[node])
    } else {
        None
    }
}

/// Follows one edge into `target`, for which the engine answered `outcome`.
/// Wherever that changes the target's condition, the target is queued.
pub open spec fn record(state: Propagation, target: usize, outcome: Outcome) -> Propagation {
    match decided(stored(state, target), outcome.candidate, outcome.merged) {
        Some(marker) => Propagation {
            reached: state.reached.insert(target, marker),
            queue: state.queue.push(target),
        },
        None => state,
    }
}

/// Follows the edges of `walk` from position `from` on, one after the other;
/// `row` holds the engine's answers by position.
pub open spec fn relax_walk(
    state: Propagation,
    view: GraphView,
    walk: Seq<usize>,
    from: int,
    row: Seq<Outcome>,
) -> Propagation
    decreases walk.len() - from,
{
    if from < 0 || from >= walk.len() {
        state
    } else {
        relax_walk(
            record(state, view.edges[walk[from] as int].target, row[from]),
            view,
            walk,
            from + 1,
            row,
        )
    }
}

/// Takes up the node that was queued last: follows all the edges that leave
/// it.
pub open spec fn step(view: GraphView, state: Propagation, row: Seq<Outcome>) -> Propagation {
    relax_walk(
        Propagation { reached: state.reached, queue: state.queue.drop_last() },
        view,
        view.outgoing[state.queue.last() as int],
        0,
        row,
    )
}

/// Takes up queued nodes until none is left, but at most `limit` of them.
/// `trace` holds the engine's answers for each node that is taken up, from
/// position `at` on. Gives the conditions found if the queue ran empty.
pub open spec fn run(
    view: GraphView,
    state: Propagation,
    limit: nat,
    trace: Seq<Seq<Outcome>>,
    at: int,
) -> Option<Map<usize, UniversalMarker>>
    decreases limit,
{
    if state.queue.len() == 0 {
        Some(state.reached)
    } else if limit == 0 {
        None
    } else {
        run(view, step(view, state, trace[at]), (limit - 1) as nat, trace, at + 1)
    }
}

/// What is required of the engine's answers for one edge: a condition on the
/// edge's weight, the condition of its source, the condition that the target
/// had, and the outcome.
pub type Requirement = spec_fn(UniversalMarker, UniversalMarker, Option<UniversalMarker>, Outcome) -> bool;

/// The answers of `row` from position `from` on meet the requirement, each
/// for the edge that it belongs to and in the state in which the edge is
/// followed.
pub open spec fn walk_meets(
    state: Propagation,
    view: GraphView,
    marker: UniversalMarker,
    walk: Seq<usize>,
    from: int,
    row: Seq<Outcome>,
    requirement: Requirement,
) -> bool
    decreases walk.len() - from,
{
    if from < 0 || from >= walk.len() {
        true
    } else {
        let edge = view.edges[walk[from] as int];
        &&& requirement(edge.weight, marker, stored(state, edge.target), row[from])
        &&& walk_meets(
            record(state, edge.target, row[from]),
            view,
            marker,
            walk,
            from + 1,
            row,
            requirement,
        )
    }
}

/// All the answers that the run makes use of meet the requirement.
pub open spec fn run_meets(
    view: GraphView,
    state: Propagation,
    limit: nat,
    trace: Seq<Seq<Outcome>>,
    at: int,
    requirement: Requirement,
) -> bool
    decreases limit,
{
    if state.queue.len() == 0 || limit == 0 {
        true
    } else {
        &&& walk_meets(
            Propagation { reached: state.reached, queue: state.queue.drop_last() },
            view,
            state.reached[state.queue.last()],
            view.outgoing[state.queue.last() as int],
            0,
            trace[at],
            requirement,
        )
        &&& run_meets(
            view,
            step(view, state, trace[at]),
            (limit - 1) as nat,
            trace,
            at + 1,
            requirement,
        )
    }
}

/// What is settled of the engine's answers for an edge: the candidate is an
/// intersection of the edge's weight and the condition of its source, and
/// the merged marker a union of the candidate and what the target had.
pub open spec fn settled() -> Requirement {
    |weight: UniversalMarker, marker: UniversalMarker, had: Option<UniversalMarker>, outcome: Outcome|
        {
            &&& outcome.candidate.is_intersection_of(weight, marker)
            &&& had matches Some(existing) ==> outcome.merged.is_union_of(
                outcome.candidate,
                existing,
            )
        }
}

/// The outcome `result` is what the worklist finds on the graph within the
/// limit if the condition of the roots is `root`, built by way of `unions`,
/// and the engine answers as `trace` says, and all are such as the engine can
/// give.
pub open spec fn replays(
    view: GraphView,
    fork_markers: Seq<UniversalMarker>,
    limit: nat,
    unions: Seq<UniversalMarker>,
    root: UniversalMarker,
    trace: Seq<Seq<Outcome>>,
    result: Result<HashMap<usize, UniversalMarker>, ReachabilityError>,
) -> bool {
    &&& is_root_condition(fork_markers, unions, root)
    &&& run_meets(view, start(view, root), limit, trace, 0, settled())
    &&& is_outcome(result, run(view, start(view, root), limit, trace, 0), limit as usize)
}

/// The worklist settled, and every node that it reached has the condition of
/// the roots, which is built of the forks as [`is_root_condition`] says.
pub open spec fn hands_on_the_root_condition(
    fork_markers: Seq<UniversalMarker>,
    result: Result<HashMap<usize, UniversalMarker>, ReachabilityError>,
) -> bool {
    result matches Ok(found) && exists|unions: Seq<UniversalMarker>, root: UniversalMarker| #[trigger]
        is_root_condition(fork_markers, unions, root) && forall|node: usize| #[trigger]
            found@.contains_key(node) ==> found@[node] == root
}

/// The sequence `longer` begins with `shorter`.
pub open spec fn begins_with<T>(longer: Seq<T>, shorter: Seq<T>) -> bool {
    &&& shorter.len() <= longer.len()
    &&& forall|i: int| 0 <= i < shorter.len() ==> longer[i] == shorter[i]
}

/// How many nodes the worklist may take up on a graph of the given size
/// before it gives up: a thousand times the number of its nodes and edges
/// and one more, or the largest number that fits where that does not.
pub open spec fn step_limit(nodes: nat, edges: nat) -> nat {
    if 1000 * (nodes + edges + 1) <= usize::MAX {
        1000 * (nodes + edges + 1)
    } else {
        usize::MAX as nat
    }
}

/// What the worklist is expected to hand back.
pub open spec fn is_outcome(
    result: Result<HashMap<usize, UniversalMarker>, ReachabilityError>,
    expected: Option<Map<usize, UniversalMarker>>,
    limit: usize,
) -> bool {
    match expected {
        Some(reached) => result matches Ok(found) && found@ == reached,
        None => result matches Err(ReachabilityError::StepLimitExceeded { limit: l }) && l == limit,
    }
}

/// The limit on the number of nodes taken up for a graph.
pub fn default_step_limit(adjacency: &Adjacency) -> (limit: usize)
    ensures
        limit == step_limit(adjacency@.nodes(), adjacency@.edges.len()),
{
    let nodes = adjacency.node_count();
    let edges = adjacency.edge_count();
    match nodes.checked_add(edges) {
        Some(sum) => match sum.checked_add(1) {
            Some(size) => match size.checked_mul(1000) {
                Some(limit) => limit,
                None => usize::MAX,
            },
            None => usize::MAX,
        },
        None => usize::MAX,
    }
}

/// The nodes that no edge enters, in rising order.
pub fn find_roots(adjacency: &Adjacency) -> (found: Vec<usize>)
    requires
        adjacency@.wf(),
    ensures
        found@ == roots(adjacency@),
        forall|i: int| 0 <= i < found@.len() ==> (#[trigger] found@[i]) < adjacency@.nodes(),
{
    let ghost view = adjacency@;
    let nodes = adjacency.node_count();
    let edges = adjacency.edge_count();
    let mut entered: Vec<bool> = vec![false; nodes];
    let mut e: usize = 0;
    while e < edges
        invariant
            e <= edges,
            view == adjacency@,
            view.wf(),
            edges == view.edges.len(),
            nodes == view.nodes(),
            entered@.len() == nodes,
            forall|n: int|
                0 <= n < nodes ==> (#[trigger] entered@[n] <==> exists|i: int|
                    0 <= i < e && (#[trigger] view.edges[i]).target == n),
        decreases edges - e,
    {
        let edge = adjacency.edge(e);
        let ghost before = entered@;
        entered.set(edge.target, true);
        assert forall|n: int| 0 <= n < nodes implies (#[trigger] entered@[n] <==> exists|i: int|
            0 <= i < e + 1 && (#[trigger] view.edges[i]).target == n) by {
            if entered@[n] {
                if n == edge.target {
                    assert(view.edges[e as int].target == n);
                } else {
                    assert(before[n]);
                    let i = choose|i: int| 0 <= i < e && (#[trigger] view.edges[i]).target == n;
                    assert(0 <= i < e + 1 && view.edges[i].target == n);
                }
            } else {
                assert(!before[n]);
            }
        }
        e += 1;
    }
    let mut found: Vec<usize> = Vec::new();
    let mut n: usize = 0;
    while n < nodes
        invariant
            n <= nodes,
            view == adjacency@,
            nodes == view.nodes(),
            edges == view.edges.len(),
            entered@.len() == nodes,
            forall|k: int|
                0 <= k < nodes ==> (#[trigger] entered@[k] <==> exists|i: int|
                    0 <= i < edges && (#[trigger] view.edges[i]).target == k),
            found@ == roots_below(view, n as nat),
            forall|i: int| 0 <= i < found@.len() ==> (#[trigger] found@[i]) < nodes,
        decreases nodes - n,
    {
        assert(view.is_root(n) <==> !entered@[n as int]) by {
            if entered@[n as int] {
                let i = choose|i: int| 0 <= i < edges && (#[trigger] view.edges[i]).target == n;
                assert(view.edges[i].target == n);
            }
        }
        if !entered[n] {
            found.push(n);
        }
        n += 1;
    }
    found
}

/// The union of the given markers, as the engine builds it up from the false
/// marker, or the marker that is always true if there is none. With one
/// marker it is that marker.
pub fn root_condition(fork_markers: &[UniversalMarker]) -> (marker: UniversalMarker)
    ensures
        exists|unions: Seq<UniversalMarker>| #[trigger]
            is_root_condition(fork_markers@, unions, marker),
        fork_markers@.len() == 1 ==> marker == fork_markers@[0],
{
    if fork_markers.len() == 0 {
        let marker = UniversalMarker::always();
        assert(is_root_condition(fork_markers@, Seq::empty(), marker));
        return marker;
    }
    let mut marker = UniversalMarker::never();
    let ghost mut unions: Seq<UniversalMarker> = Seq::empty().push(marker);
    let mut i: usize = 0;
    while i < fork_markers.len()
        invariant
            i <= fork_markers@.len(),
            unions.len() == i + 1,
            unions[0] == UniversalMarker::spec_never(),
            unions[0].spec_is_never(),
            marker == unions[i as int],
            i == 1 ==> marker == fork_markers@[0],
            forall|k: int|
                0 <= k < i ==> (#[trigger] unions[k + 1]).is_union_of(unions[k], fork_markers@[k]),
        decreases fork_markers@.len() - i,
    {
        marker.or(fork_markers[i]);
        proof {
            unions = unions.push(marker);
        }
        i += 1;
    }
    assert(is_root_condition(fork_markers@, unions, marker));
    marker
}

/// Decides what becomes of the condition of the target of an edge, given the
/// condition that the target has, if any, and the engine's answers: the new
/// condition with which the target is to be queued, or nothing if the target
/// keeps what it has.
pub fn decide(
    had: Option<UniversalMarker>,
    candidate: UniversalMarker,
    merged: UniversalMarker,
) -> (update: Option<UniversalMarker>)
    ensures
        update == decided(had, candidate, merged),
{
    match had {
        None => Some(candidate),
        Some(existing) => if merged != existing {
            Some(merged)
        } else {
            None
        },
    }
}

/// Determines the markers under which each node is reached from a root, on a
/// copy of the graph and with a limit on the number of nodes that the worklist
/// may take up.
///
/// The outcome is that of [`run`] for what the engine answered: the
/// conditions found once no node is left to take up, or an error if `limit`
/// nodes were taken up and some are still left. Whatever the engine answers,
/// the nodes that get a condition are those that some path from a root leads
/// to. Where no two edges enter the same node, the worklist settles as soon
/// as it may take up as many nodes as the graph has; so it does where every
/// edge is followed always, and every node that is reached then has the
/// condition of the roots.
pub fn propagate(
    adjacency: &Adjacency,
    fork_markers: &[UniversalMarker],
    limit: usize,
) -> (result: Result<HashMap<usize, UniversalMarker>, ReachabilityError>)
    requires
        adjacency@.wf(),
    ensures
        exists|unions: Seq<UniversalMarker>, root: UniversalMarker, trace: Seq<Seq<Outcome>>| #[trigger]
            replays(adjacency@, fork_markers@, limit as nat, unions, root, trace, result),
        result matches Ok(found) ==> forall|node: usize| #[trigger]
            found@.contains_key(node) <==> reachable(adjacency@, node),
        single_entry(adjacency@) && adjacency@.nodes() <= limit ==> result is Ok,
        unconditional(adjacency@) && adjacency@.nodes() <= limit ==> hands_on_the_root_condition(
            fork_markers@,
            result,
        ),
{
    let ghost view = adjacency@;
    let mut queue = find_roots(adjacency);
    let root = root_condition(fork_markers);
    let ghost unions = choose|unions: Seq<UniversalMarker>| #[trigger]
        is_root_condition(fork_markers@, unions, root);
    let mut reached: HashMap<usize, UniversalMarker> = HashMap::with_capacity(
        adjacency.node_count(),
    );
    let mut i: usize = 0;
    while i < queue.len()
        invariant
            i <= queue@.len(),
            queue@ == roots(view),
            reached@ =~= Map::new(
                |node: usize| queue@.take(i as int).contains(node),
                |node: usize| root,
            ),
        decreases queue@.len() - i,
    {
        let node = queue[i];
        reached.insert(node, root);
        assert(queue@.take(i + 1) =~= queue@.take(i as int).push(node));
        assert forall|other: usize| queue@.take(i + 1).contains(other) <==> (queue@.take(
            i as int,
        ).contains(other) || other == node) by {
            if queue@.take(i as int).contains(other) {
                let k = choose|k: int| 0 <= k < i && queue@.take(i as int)[k] == other;
                assert(queue@.take(i + 1)[k] == other);
            }
            if other == node {
                assert(queue@.take(i + 1)[i as int] == node);
            }
        }
        i += 1;
    }
    assert(queue@.take(queue@.len() as int) =~= queue@);
    let ghost init = start(view, root);
    assert(reached@ =~= init.reached);
    let ghost mut trace: Seq<Seq<Outcome>> = Seq::empty();
    let mut left = limit;
    while queue.len() > 0
        invariant
            view == adjacency@,
            view.wf(),
            init == start(view, root),
            is_root_condition(fork_markers@, unions, root),
            left <= limit,
            forall|k: int|
                0 <= k < queue@.len() ==> (#[trigger] queue@[k]) < view.nodes()
                    && reached@.contains_key(queue@[k]),
            forall|longer: Seq<Seq<Outcome>>| #[trigger]
                begins_with(longer, trace) ==> run(view, init, limit as nat, longer, 0) == run(
                    view,
                    Propagation { reached: reached@, queue: queue@ },
                    left as nat,
                    longer,
                    trace.len() as int,
                ) && run_meets(view, init, limit as nat, longer, 0, settled()) == run_meets(
                    view,
                    Propagation { reached: reached@, queue: queue@ },
                    left as nat,
                    longer,
                    trace.len() as int,
                    settled(),
                ),
        decreases left,
    {
        if left == 0 {
            let result = Err(ReachabilityError::StepLimitExceeded { limit });
            proof {
                assert(begins_with(trace, trace));
                assert(replays(view, fork_markers@, limit as nat, unions, root, trace, result));
                if single_entry(view) && view.nodes() <= limit {
                    law_settles_where_no_paths_meet(view, root, limit as nat, trace);
                }
                if unconditional(view) && view.nodes() <= limit {
                    law_unconditional_edges_hand_on_the_root_condition(
                        view,
                        root,
                        limit as nat,
                        trace,
                    );
                }
            }
            return result;
        }
        left -= 1;
        let ghost before = Propagation { reached: reached@, queue: queue@ };
        let parent = queue.pop().unwrap();
        let found = reached.get(&parent);
        let marker = *found.unwrap();
        let walk = adjacency.outgoing(parent);
        let ghost popped = Propagation { reached: reached@, queue: queue@ };
        let ghost mut row: Seq<Outcome> = Seq::empty();
        let mut j: usize = 0;
        while j < walk.len()
            invariant
                j <= walk@.len(),
                row.len() == j,
                view == adjacency@,
                view.wf(),
                parent < view.nodes(),
                walk@ == view.outgoing[parent as int],
                forall|k: int|
                    0 <= k < queue@.len() ==> (#[trigger] queue@[k]) < view.nodes()
                        && reached@.contains_key(queue@[k]),
                forall|longer: Seq<Outcome>| #[trigger]
                    begins_with(longer, row) ==> relax_walk(popped, view, walk@, 0, longer)
                        == relax_walk(
                        Propagation { reached: reached@, queue: queue@ },
                        view,
                        walk@,
                        j as int,
                        longer,
                    ) && walk_meets(popped, view, marker, walk@, 0, longer, settled()) == walk_meets(
                        Propagation { reached: reached@, queue: queue@ },
                        view,
                        marker,
                        walk@,
                        j as int,
                        longer,
                        settled(),
                    ),
            decreases walk@.len() - j,
        {
            assert(view.is_walk_from(parent, walk@));
            let edge = adjacency.edge(walk[j]);
            let ghost current = Propagation { reached: reached@, queue: queue@ };
            let mut candidate = edge.weight;
            candidate.and(marker);
            let target = edge.target;
            let had = match reached.get(&target) {
                Some(existing) => Some(*existing),
                None => None,
            };
            let mut merged = candidate;
            if let Some(existing) = had {
                merged.or(existing);
            }
            let ghost outcome = Outcome { candidate, merged };
            if let Some(update) = decide(had, candidate, merged) {
                reached.insert(target, update);
                queue.push(target);
            }
            proof {
                let after = Propagation { reached: reached@, queue: queue@ };
                assert(after == record(current, target, outcome));
                assert(settled()(edge.weight, marker, stored(current, target), outcome));
                let ghost earlier = row;
                row = row.push(outcome);
                assert forall|longer: Seq<Outcome>| #[trigger]
                    begins_with(longer, row) implies relax_walk(popped, view, walk@, 0, longer)
                    == relax_walk(after, view, walk@, j + 1, longer) && walk_meets(
                    popped,
                    view,
                    marker,
                    walk@,
                    0,
                    longer,
                    settled(),
                ) == walk_meets(after, view, marker, walk@, j + 1, longer, settled()) by {
                    assert(begins_with(longer, earlier));
                    assert(longer[j as int] == row[j as int]);
                }
            }
            j += 1;
        }
        proof {
            let after = Propagation { reached: reached@, queue: queue@ };
            assert(before.queue.drop_last() =~= popped.queue);
            let ghost earlier = trace;
            trace = trace.push(row);
            assert forall|longer: Seq<Seq<Outcome>>| #[trigger]
                begins_with(longer, trace) implies run(view, init, limit as nat, longer, 0) == run(
                view,
                after,
                left as nat,
                longer,
                trace.len() as int,
            ) && run_meets(view, init, limit as nat, longer, 0, settled()) == run_meets(
                view,
                after,
                left as nat,
                longer,
                trace.len() as int,
                settled(),
            ) by {
                assert(begins_with(longer, earlier));
                assert(longer[earlier.len() as int] == trace[earlier.len() as int]);
                assert(begins_with(longer[earlier.len() as int], row));
                assert(step(view, before, longer[earlier.len() as int]) == after);
            }
        }
    }
    let result = Ok(reached);
    proof {
        assert(begins_with(trace, trace));
        assert(replays(view, fork_markers@, limit as nat, unions, root, trace, result));
        assert forall|node: usize| #[trigger] reached@.contains_key(node) <==> reachable(view, node) by {
            law_reached_is_reachable(view, root, limit as nat, trace, node);
        }
        if unconditional(view) && view.nodes() <= limit {
            law_unconditional_edges_hand_on_the_root_condition(view, root, limit as nat, trace);
        }
    }
    result
}

/// Determines the markers under which each node of a dependency graph is
/// reached from a root.
///
/// The roots are the nodes that no edge enters. They are reached always,
/// unless `fork_markers` restricts the resolution; then under the union of
/// those markers. A node that no path from a root leads to gets no marker.
/// The marker of any other node is built up by the engine, for each of its
/// two markers, as the union over the paths from a root to the node of the
/// intersection of the edges of the path.
///
/// The worklist may take up a thousand nodes for each node and each edge of
/// the graph and a thousand more; if the markers have not settled by then,
/// that is an error. Whether they settle is up to the engine, except where
/// no two edges enter the same node and where every edge is followed always:
/// there they always do, and in the second case every node that is reached
/// has the condition of the roots.
pub fn marker_reachability(
    graph: &DependencyGraph,
    fork_markers: &[UniversalMarker],
) -> (result: Result<HashMap<usize, UniversalMarker>, ReachabilityError>)
    ensures
        view_of(*graph).wf(),
        exists|unions: Seq<UniversalMarker>, root: UniversalMarker, trace: Seq<Seq<Outcome>>| #[trigger]
            replays(
                view_of(*graph),
                fork_markers@,
                step_limit(view_of(*graph).nodes(), view_of(*graph).edges.len()),
                unions,
                root,
                trace,
                result,
            ),
        result matches Ok(found) ==> forall|node: usize| #[trigger]
            found@.contains_key(node) <==> reachable(view_of(*graph), node),
        single_entry(view_of(*graph)) ==> result is Ok,
        unconditional(view_of(*graph)) ==> hands_on_the_root_condition(fork_markers@, result),
{
    let adjacency = Adjacency::of(graph);
    let limit = default_step_limit(&adjacency);
    propagate(&adjacency, fork_markers, limit)
}

} // verus!
