use marker_graph::graph::{Adjacency, DependencyGraph, ResolutionGraphNode};
use marker_graph::simplify::{
    assume_extras, clone_extras, extend_extras, insert_extra, known_extras,
    simplify_conflict_markers,
};
use marker_graph::UniversalMarker;
use petgraph::Graph;
use std::str::FromStr;
use uv_normalize::ExtraName;
use uv_pep508::MarkerTree;

fn name(text: &str) -> ExtraName {
    ExtraName::from_str(text).unwrap()
}

fn plain() -> ResolutionGraphNode {
    ResolutionGraphNode::Package { extra: None }
}

fn with_extra(text: &str) -> ResolutionGraphNode {
    ResolutionGraphNode::Package { extra: Some(name(text)) }
}

fn conflict(text: &str) -> UniversalMarker {
    UniversalMarker::new(MarkerTree::TRUE, MarkerTree::from_str(text).unwrap())
}

fn marker(pep508: &str, conflict: &str) -> UniversalMarker {
    UniversalMarker::new(
        MarkerTree::from_str(pep508).unwrap(),
        MarkerTree::from_str(conflict).unwrap(),
    )
}

#[test]
fn simplify_drops_the_test_for_the_extra_of_the_source() {
    let mut graph: DependencyGraph = Graph::new();
    let root = graph.add_node(ResolutionGraphNode::Root);
    let p = graph.add_node(with_extra("a"));
    let q = graph.add_node(plain());
    let root_p = graph.add_edge(root, p, UniversalMarker::always());
    let p_q = graph.add_edge(p, q, conflict("extra == 'a'"));

    simplify_conflict_markers(&mut graph);

    assert!(graph[p_q].conflict().is_true());
    assert!(graph[p_q].is_true());
    assert!(graph[root_p].is_true());
}

#[test]
fn simplify_drops_the_test_for_the_extra_of_the_target() {
    let mut graph: DependencyGraph = Graph::new();
    let root = graph.add_node(ResolutionGraphNode::Root);
    let p = graph.add_node(with_extra("a"));
    let root_p = graph.add_edge(root, p, marker("sys_platform == 'linux'", "extra == 'a'"));

    simplify_conflict_markers(&mut graph);

    assert!(
        graph[root_p]
            == UniversalMarker::new(
                MarkerTree::from_str("sys_platform == 'linux'").unwrap(),
                MarkerTree::TRUE
            )
    );
}

#[test]
fn simplify_carries_extras_down_the_graph() {
    let mut graph: DependencyGraph = Graph::new();
    let root = graph.add_node(ResolutionGraphNode::Root);
    let p = graph.add_node(with_extra("a"));
    let q = graph.add_node(with_extra("b"));
    let s = graph.add_node(plain());
    graph.add_edge(root, p, UniversalMarker::always());
    graph.add_edge(p, q, UniversalMarker::always());
    let q_s = graph.add_edge(q, s, conflict("extra == 'a' and extra == 'b' and extra == 'c'"));

    simplify_conflict_markers(&mut graph);

    assert!(graph[q_s] == conflict("extra == 'c'"));
}

#[test]
fn simplify_changes_nothing_but_the_weights() {
    let mut graph: DependencyGraph = Graph::new();
    let root = graph.add_node(ResolutionGraphNode::Root);
    let p = graph.add_node(with_extra("a"));
    let q = graph.add_node(plain());
    let root_p = graph.add_edge(root, p, UniversalMarker::always());
    let p_q = graph.add_edge(p, q, marker("sys_platform == 'linux'", "extra == 'a' or extra == 'b'"));

    simplify_conflict_markers(&mut graph);

    assert_eq!(graph.node_count(), 3);
    assert_eq!(graph.edge_count(), 2);
    assert_eq!(graph.edge_endpoints(root_p), Some((root, p)));
    assert_eq!(graph.edge_endpoints(p_q), Some((p, q)));
    assert_eq!(graph[p].extra(), Some(&name("a")));
    assert_eq!(graph[q].extra(), None);
    assert!(*graph[p_q].pep508() == MarkerTree::from_str("sys_platform == 'linux'").unwrap());
    assert!(graph[p_q].conflict().is_true());
}

#[test]
fn simplify_leaves_edges_alone_that_no_root_leads_to() {
    let mut graph: DependencyGraph = Graph::new();
    let a = graph.add_node(with_extra("a"));
    let b = graph.add_node(plain());
    let a_b = graph.add_edge(a, b, conflict("extra == 'a'"));
    let b_a = graph.add_edge(b, a, conflict("extra == 'a'"));

    simplify_conflict_markers(&mut graph);

    assert!(graph[a_b] == conflict("extra == 'a'"));
    assert!(graph[b_a] == conflict("extra == 'a'"));
}

#[test]
fn simplify_knows_only_what_was_met_before_a_node_is_taken_up() {
    // Two graphs with the same nodes and edges. They differ in the order in
    // which the two edges out of the root were added. The edge that was added
    // last is walked first, and its target is queued first and taken up last.
    for a_taken_up_first in [false, true] {
        let mut graph: DependencyGraph = Graph::new();
        let root = graph.add_node(ResolutionGraphNode::Root);
        let with_a = graph.add_node(with_extra("a"));
        let without = graph.add_node(plain());
        let joint = graph.add_node(plain());
        let last = graph.add_node(plain());
        if a_taken_up_first {
            graph.add_edge(root, with_a, UniversalMarker::always());
            graph.add_edge(root, without, UniversalMarker::always());
        } else {
            graph.add_edge(root, without, UniversalMarker::always());
            graph.add_edge(root, with_a, UniversalMarker::always());
        }
        graph.add_edge(with_a, joint, UniversalMarker::always());
        graph.add_edge(without, joint, UniversalMarker::always());
        let joint_last = graph.add_edge(joint, last, conflict("extra == 'a'"));

        simplify_conflict_markers(&mut graph);

        if a_taken_up_first {
            // `joint` was met through `with_a` before it was taken up.
            assert!(graph[joint_last].conflict().is_true());
        } else {
            // `joint` was taken up when only `without` had led to it.
            assert!(graph[joint_last] == conflict("extra == 'a'"));
        }
    }
}

#[test]
fn known_extras_lists_the_extras_for_each_edge() {
    let mut graph: DependencyGraph = Graph::new();
    let root = graph.add_node(ResolutionGraphNode::Root);
    let p = graph.add_node(with_extra("a"));
    let q = graph.add_node(with_extra("b"));
    let s = graph.add_node(with_extra("a"));
    let root_p = graph.add_edge(root, p, UniversalMarker::always());
    let p_q = graph.add_edge(p, q, UniversalMarker::always());
    let q_s = graph.add_edge(q, s, UniversalMarker::always());

    let assumed = known_extras(&Adjacency::of(&graph));

    assert_eq!(assumed.len(), 3);
    assert_eq!(assumed[root_p.index()], vec![name("a")]);
    assert_eq!(assumed[p_q.index()], vec![name("a"), name("b")]);
    assert_eq!(assumed[q_s.index()], vec![name("a"), name("b")]);
}

#[test]
fn insert_extra_adds_a_new_extra_at_the_end() {
    let mut known = vec![name("a"), name("b")];
    insert_extra(&mut known, &name("c"));
    assert_eq!(known, vec![name("a"), name("b"), name("c")]);
}

#[test]
fn insert_extra_skips_an_extra_that_is_known() {
    let mut known = vec![name("a"), name("b")];
    insert_extra(&mut known, &name("a"));
    assert_eq!(known, vec![name("a"), name("b")]);
    // Names are compared once normalized.
    insert_extra(&mut known, &name("B"));
    assert_eq!(known, vec![name("a"), name("b")]);
}

#[test]
fn extend_extras_adds_the_new_ones_in_order() {
    let mut known = vec![name("a")];
    extend_extras(&mut known, &vec![name("c"), name("a"), name("b"), name("c")]);
    assert_eq!(known, vec![name("a"), name("c"), name("b")]);
}

#[test]
fn clone_extras_copies_the_list() {
    let list = vec![name("a"), name("b")];
    assert_eq!(clone_extras(&list), list);
    assert!(clone_extras(&vec![]).is_empty());
}

#[test]
fn assume_extras_assumes_each_extra() {
    let before = marker("sys_platform == 'linux'", "extra == 'a' and extra == 'b' and extra == 'c'");
    let after = assume_extras(before, &vec![name("a"), name("c")]);
    assert!(after == marker("sys_platform == 'linux'", "extra == 'b'"));
    assert!(assume_extras(before, &vec![]) == before);
}

#[test]
fn simplified_edges_evaluate_as_before_where_the_extras_are_switched_on() {
    let mut graph: DependencyGraph = Graph::new();
    let root = graph.add_node(ResolutionGraphNode::Root);
    let p = graph.add_node(with_extra("a"));
    let q = graph.add_node(with_extra("b"));
    let s = graph.add_node(plain());
    graph.add_edge(root, p, conflict("extra == 'a' or extra == 'c'"));
    graph.add_edge(p, q, conflict("extra != 'a' or extra == 'b'"));
    graph.add_edge(q, s, conflict("(extra == 'a' and extra == 'c') or extra != 'b'"));
    let before = graph.clone();
    let assumed = known_extras(&Adjacency::of(&graph));

    simplify_conflict_markers(&mut graph);

    let env = uv_pep508::MarkerEnvironment::try_from(uv_pep508::MarkerEnvironmentBuilder {
        implementation_name: "cpython",
        implementation_version: "3.12.1",
        os_name: "posix",
        platform_machine: "x86_64",
        platform_python_implementation: "CPython",
        platform_release: "6.1.0",
        platform_system: "Linux",
        platform_version: "#1 SMP",
        python_full_version: "3.12.1",
        python_version: "3.12",
        sys_platform: "linux",
    })
    .unwrap();
    for edge in graph.edge_indices() {
        for with_c in [false, true] {
            let mut extras = assumed[edge.index()].clone();
            if with_c {
                extras.push(name("c"));
            }
            assert_eq!(graph[edge].evaluate(&env, &extras), before[edge].evaluate(&env, &extras));
        }
    }
    assert!(graph[graph.edge_indices().last().unwrap()] == conflict("extra == 'c'"));
}

#[test]
fn simplify_leaves_trivial_conflict_markers_alone() {
    let mut graph: DependencyGraph = Graph::new();
    let root = graph.add_node(ResolutionGraphNode::Root);
    let p = graph.add_node(with_extra("a"));
    let q = graph.add_node(with_extra("b"));
    let r = graph.add_node(plain());
    let linux = MarkerTree::from_str("sys_platform == 'linux'").unwrap();
    let root_p = graph.add_edge(root, p, UniversalMarker::always());
    let p_q = graph.add_edge(p, q, UniversalMarker::new(linux, MarkerTree::TRUE));
    let q_r = graph.add_edge(q, r, UniversalMarker::new(linux, MarkerTree::FALSE));

    simplify_conflict_markers(&mut graph);

    assert!(graph[root_p] == UniversalMarker::always());
    assert!(graph[p_q] == UniversalMarker::new(linux, MarkerTree::TRUE));
    assert!(graph[q_r] == UniversalMarker::new(linux, MarkerTree::FALSE));
}

#[test]
fn assume_extras_leaves_a_trivial_conflict_marker_alone() {
    let linux = MarkerTree::from_str("sys_platform == 'linux'").unwrap();
    for conflict in [MarkerTree::TRUE, MarkerTree::FALSE] {
        let before = UniversalMarker::new(linux, conflict);
        assert!(assume_extras(before, &vec![name("a"), name("b")]) == before);
    }
}
