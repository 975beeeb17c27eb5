use marker_graph::graph::{Adjacency, DependencyGraph, ResolutionGraphNode};
use marker_graph::reachability::{
    decide, default_step_limit, find_roots, marker_reachability, propagate, root_condition,
    ReachabilityError,
};
use marker_graph::UniversalMarker;
use petgraph::Graph;
use std::str::FromStr;
use uv_normalize::ExtraName;
use uv_pep508::{MarkerEnvironment, MarkerEnvironmentBuilder, MarkerTree};

fn pep508(text: &str) -> UniversalMarker {
    UniversalMarker::new(MarkerTree::from_str(text).unwrap(), MarkerTree::TRUE)
}

fn both(pep508: &str, conflict: &str) -> UniversalMarker {
    UniversalMarker::new(
        MarkerTree::from_str(pep508).unwrap(),
        MarkerTree::from_str(conflict).unwrap(),
    )
}

fn package() -> ResolutionGraphNode {
    ResolutionGraphNode::Package { extra: None }
}

fn environment(sys_platform: &str) -> MarkerEnvironment {
    MarkerEnvironment::try_from(MarkerEnvironmentBuilder {
        implementation_name: "cpython",
        implementation_version: "3.12.1",
        os_name: "posix",
        platform_machine: "x86_64",
        platform_python_implementation: "CPython",
        platform_release: "6.1.0",
        platform_system: "Linux",
        platform_version: "#1 SMP",
        python_full_version: "3.12.1",
        python_version: "3.12",
        sys_platform,
    })
    .unwrap()
}

fn named(name: &str) -> ExtraName {
    ExtraName::from_str(name).unwrap()
}

#[test]
fn reachability_follows_the_edges_from_the_root() {
    let mut graph: DependencyGraph = Graph::new();
    let r = graph.add_node(ResolutionGraphNode::Root);
    let p = graph.add_node(package());
    let q = graph.add_node(package());
    let s = graph.add_node(package());
    graph.add_edge(r, p, UniversalMarker::always());
    graph.add_edge(r, q, pep508("sys_platform == 'linux'"));
    graph.add_edge(p, s, pep508("sys_platform == 'darwin'"));

    let reached = marker_reachability(&graph, &[]).unwrap();

    assert_eq!(reached.len(), 4);
    assert!(reached[&r.index()] == UniversalMarker::always());
    assert!(reached[&p.index()] == UniversalMarker::always());
    assert!(reached[&q.index()] == pep508("sys_platform == 'linux'"));
    assert!(reached[&s.index()] == pep508("sys_platform == 'darwin'"));
}

#[test]
fn reachability_of_an_empty_graph_is_empty() {
    let graph: DependencyGraph = Graph::new();
    let reached = marker_reachability(&graph, &[]).unwrap();
    assert!(reached.is_empty());
}

#[test]
fn reachability_leaves_out_nodes_that_no_root_leads_to() {
    let mut graph: DependencyGraph = Graph::new();
    let r = graph.add_node(ResolutionGraphNode::Root);
    let p = graph.add_node(package());
    let a = graph.add_node(package());
    let b = graph.add_node(package());
    graph.add_edge(r, p, UniversalMarker::always());
    // A cycle that nothing enters has no root.
    graph.add_edge(a, b, UniversalMarker::always());
    graph.add_edge(b, a, UniversalMarker::always());

    let reached = marker_reachability(&graph, &[]).unwrap();

    assert_eq!(reached.len(), 2);
    assert!(reached.contains_key(&r.index()));
    assert!(reached.contains_key(&p.index()));
    assert!(!reached.contains_key(&a.index()));
    assert!(!reached.contains_key(&b.index()));
}

#[test]
fn reachability_starts_from_every_root() {
    let mut graph: DependencyGraph = Graph::new();
    let r1 = graph.add_node(ResolutionGraphNode::Root);
    let r2 = graph.add_node(ResolutionGraphNode::Root);
    let p = graph.add_node(package());
    graph.add_edge(r1, p, pep508("sys_platform == 'linux'"));
    graph.add_edge(r2, p, pep508("sys_platform == 'darwin'"));

    let reached = marker_reachability(&graph, &[]).unwrap();

    assert!(reached[&r1.index()] == UniversalMarker::always());
    assert!(reached[&r2.index()] == UniversalMarker::always());
    assert!(reached[&p.index()] == pep508("sys_platform == 'linux' or sys_platform == 'darwin'"));
}

#[test]
fn reachability_unions_the_two_edges_into_a_node() {
    let mut graph: DependencyGraph = Graph::new();
    let r = graph.add_node(ResolutionGraphNode::Root);
    let a = graph.add_node(package());
    graph.add_edge(r, a, pep508("sys_platform == 'linux'"));
    graph.add_edge(r, a, pep508("sys_platform == 'darwin'"));

    let reached = marker_reachability(&graph, &[]).unwrap();
    let condition = reached[&a.index()];

    assert!(condition.evaluate(&environment("linux"), &[]));
    assert!(condition.evaluate(&environment("darwin"), &[]));
    assert!(!condition.evaluate(&environment("win32"), &[]));
}

#[test]
fn reachability_unions_the_two_markers_apart() {
    let mut graph: DependencyGraph = Graph::new();
    let r = graph.add_node(ResolutionGraphNode::Root);
    let a = graph.add_node(package());
    graph.add_edge(r, a, both("sys_platform == 'linux'", "extra == 'x'"));
    graph.add_edge(r, a, both("sys_platform == 'darwin'", "extra == 'y'"));

    let reached = marker_reachability(&graph, &[]).unwrap();
    let condition = reached[&a.index()];

    assert!(condition == both(
        "sys_platform == 'linux' or sys_platform == 'darwin'",
        "extra == 'x' or extra == 'y'",
    ));
    assert!(condition.evaluate(&environment("linux"), &[named("x")]));
    assert!(condition.evaluate(&environment("darwin"), &[named("y")]));
    // Neither edge holds here, but each marker holds by one of them.
    assert!(condition.evaluate(&environment("linux"), &[named("y")]));
    assert!(!condition.evaluate(&environment("win32"), &[named("x")]));
    assert!(!condition.evaluate(&environment("linux"), &[]));
}

#[test]
fn reachability_intersects_the_edges_along_a_path() {
    let mut graph: DependencyGraph = Graph::new();
    let r = graph.add_node(ResolutionGraphNode::Root);
    let p = graph.add_node(package());
    let q = graph.add_node(package());
    graph.add_edge(r, p, pep508("sys_platform == 'linux'"));
    graph.add_edge(p, q, pep508("python_version >= '3.10'"));

    let reached = marker_reachability(&graph, &[]).unwrap();

    assert!(
        reached[&q.index()] == pep508("sys_platform == 'linux' and python_version >= '3.10'")
    );
}

#[test]
fn reachability_never_narrows_what_an_earlier_path_gave() {
    // The node `d` is first reached through `b` and later through `c`.
    let mut graph: DependencyGraph = Graph::new();
    let r = graph.add_node(ResolutionGraphNode::Root);
    let b = graph.add_node(package());
    let c = graph.add_node(package());
    let d = graph.add_node(package());
    let e = graph.add_node(package());
    graph.add_edge(r, b, pep508("sys_platform == 'linux'"));
    graph.add_edge(r, c, pep508("sys_platform == 'darwin'"));
    graph.add_edge(b, d, UniversalMarker::always());
    graph.add_edge(c, d, UniversalMarker::always());
    graph.add_edge(d, e, pep508("python_version >= '3.10'"));

    let reached = marker_reachability(&graph, &[]).unwrap();

    for platform in ["linux", "darwin"] {
        assert!(reached[&d.index()].evaluate(&environment(platform), &[]));
        assert!(reached[&e.index()].evaluate(&environment(platform), &[]));
    }
    assert!(!reached[&d.index()].evaluate(&environment("win32"), &[]));
    assert!(reached[&d.index()] == pep508("sys_platform == 'linux' or sys_platform == 'darwin'"));
    assert!(
        reached[&e.index()]
            == pep508(
                "(sys_platform == 'linux' or sys_platform == 'darwin') and python_version >= '3.10'"
            )
    );
}

#[test]
fn reachability_settles_on_a_cycle() {
    let mut graph: DependencyGraph = Graph::new();
    let r = graph.add_node(ResolutionGraphNode::Root);
    let a = graph.add_node(package());
    let b = graph.add_node(package());
    graph.add_edge(r, a, pep508("sys_platform == 'linux'"));
    graph.add_edge(a, b, pep508("python_version >= '3.10'"));
    graph.add_edge(b, a, pep508("python_version >= '3.11'"));

    let reached = marker_reachability(&graph, &[]).unwrap();

    // Going round the cycle adds no environment to either node.
    assert!(reached[&a.index()] == pep508("sys_platform == 'linux'"));
    assert!(
        reached[&b.index()] == pep508("sys_platform == 'linux' and python_version >= '3.10'")
    );
}

#[test]
fn reachability_settles_on_a_loop_at_one_node() {
    let mut graph: DependencyGraph = Graph::new();
    let r = graph.add_node(ResolutionGraphNode::Root);
    let a = graph.add_node(package());
    graph.add_edge(r, a, pep508("sys_platform == 'linux'"));
    graph.add_edge(a, a, pep508("python_version >= '3.10'"));

    let reached = marker_reachability(&graph, &[]).unwrap();

    assert!(reached[&a.index()] == pep508("sys_platform == 'linux'"));
}

#[test]
fn reachability_restricts_the_roots_to_the_forks() {
    let mut graph: DependencyGraph = Graph::new();
    let r = graph.add_node(ResolutionGraphNode::Root);
    let p = graph.add_node(package());
    graph.add_edge(r, p, pep508("python_version >= '3.10'"));
    let forks = [pep508("sys_platform == 'linux'"), pep508("sys_platform == 'darwin'")];

    let reached = marker_reachability(&graph, &forks).unwrap();

    assert!(reached[&r.index()] == pep508("sys_platform == 'linux' or sys_platform == 'darwin'"));
    assert!(
        reached[&p.index()]
            == pep508(
                "python_version >= '3.10' and (sys_platform == 'linux' or sys_platform == 'darwin')"
            )
    );
}

#[test]
fn root_condition_without_forks_is_always() {
    assert!(root_condition(&[]) == UniversalMarker::always());
}

#[test]
fn root_condition_is_the_union_of_the_forks() {
    let forks = [
        both("sys_platform == 'linux'", "extra == 'x'"),
        both("sys_platform == 'darwin'", "extra == 'y'"),
    ];
    assert!(
        root_condition(&forks)
            == both(
                "sys_platform == 'linux' or sys_platform == 'darwin'",
                "extra == 'x' or extra == 'y'",
            )
    );
    assert!(root_condition(&forks[..1]) == forks[0]);
}

#[test]
fn find_roots_lists_the_nodes_that_no_edge_enters() {
    let mut graph: DependencyGraph = Graph::new();
    let a = graph.add_node(package());
    let b = graph.add_node(package());
    let c = graph.add_node(package());
    let d = graph.add_node(package());
    graph.add_edge(c, b, UniversalMarker::always());
    graph.add_edge(d, d, UniversalMarker::always());

    let roots = find_roots(&Adjacency::of(&graph));

    assert_eq!(roots, vec![a.index(), c.index()]);
}

#[test]
fn adjacency_copies_the_graph() {
    let mut graph: DependencyGraph = Graph::new();
    let r = graph.add_node(ResolutionGraphNode::Root);
    let p = graph.add_node(ResolutionGraphNode::Package { extra: Some(named("x")) });
    let q = graph.add_node(package());
    let first = graph.add_edge(r, p, pep508("sys_platform == 'linux'"));
    let second = graph.add_edge(r, q, pep508("sys_platform == 'darwin'"));
    let third = graph.add_edge(p, q, UniversalMarker::always());

    let adjacency = Adjacency::of(&graph);

    assert_eq!(adjacency.node_count(), 3);
    assert_eq!(adjacency.edge_count(), 3);
    assert_eq!(*adjacency.extra(r.index()), None);
    assert_eq!(*adjacency.extra(p.index()), Some(named("x")));
    assert_eq!(*adjacency.extra(q.index()), None);
    let edge = adjacency.edge(second.index());
    assert_eq!(edge.source, r.index());
    assert_eq!(edge.target, q.index());
    assert!(edge.weight == pep508("sys_platform == 'darwin'"));
    // The edge that was added last is walked first.
    assert_eq!(*adjacency.outgoing(r.index()), vec![second.index(), first.index()]);
    assert_eq!(*adjacency.outgoing(p.index()), vec![third.index()]);
    assert!(adjacency.outgoing(q.index()).is_empty());
}

#[test]
fn node_extra_is_that_of_the_package() {
    assert_eq!(ResolutionGraphNode::Root.extra(), None);
    assert_eq!(package().extra(), None);
    let with_extra = ResolutionGraphNode::Package { extra: Some(named("x")) };
    assert_eq!(with_extra.extra(), Some(&named("x")));
}

#[test]
fn default_step_limit_is_a_thousand_for_each_node_and_edge_and_a_thousand_more() {
    let mut graph: DependencyGraph = Graph::new();
    let r = graph.add_node(ResolutionGraphNode::Root);
    let p = graph.add_node(package());
    let q = graph.add_node(package());
    let s = graph.add_node(package());
    graph.add_edge(r, p, UniversalMarker::always());
    graph.add_edge(r, q, UniversalMarker::always());
    graph.add_edge(p, s, UniversalMarker::always());

    assert_eq!(default_step_limit(&Adjacency::of(&graph)), 8000);
    let empty: DependencyGraph = Graph::new();
    assert_eq!(default_step_limit(&Adjacency::of(&empty)), 1000);
}

#[test]
fn propagate_gives_up_at_the_limit() {
    let mut graph: DependencyGraph = Graph::new();
    let r = graph.add_node(ResolutionGraphNode::Root);
    let p = graph.add_node(package());
    let q = graph.add_node(package());
    graph.add_edge(r, p, UniversalMarker::always());
    graph.add_edge(p, q, UniversalMarker::always());
    let adjacency = Adjacency::of(&graph);

    for limit in [0, 1, 2] {
        let outcome = propagate(&adjacency, &[], limit);
        assert!(matches!(
            outcome,
            Err(ReachabilityError::StepLimitExceeded { limit: given }) if given == limit
        ));
    }
    let reached = propagate(&adjacency, &[], 3).unwrap();
    assert_eq!(reached.len(), 3);
}

#[test]
fn propagate_with_no_node_needs_no_step() {
    let graph: DependencyGraph = Graph::new();
    let reached = propagate(&Adjacency::of(&graph), &[], 0).unwrap();
    assert!(reached.is_empty());
}

#[test]
fn reachability_error_names_the_limit() {
    let error = ReachabilityError::StepLimitExceeded { limit: 7 };
    assert_eq!(format!("{error:?}"), "StepLimitExceeded { limit: 7 }");
}

#[test]
fn propagate_settles_on_a_tree_within_as_many_steps_as_nodes() {
    let mut graph: DependencyGraph = Graph::new();
    let r = graph.add_node(ResolutionGraphNode::Root);
    let a = graph.add_node(package());
    let b = graph.add_node(package());
    let c = graph.add_node(package());
    let d = graph.add_node(package());
    graph.add_edge(r, a, pep508("sys_platform == 'linux'"));
    graph.add_edge(r, b, pep508("sys_platform == 'darwin'"));
    graph.add_edge(a, c, pep508("python_version >= '3.10'"));
    graph.add_edge(a, d, both("python_version < '3.10'", "extra == 'x'"));
    let adjacency = Adjacency::of(&graph);

    let reached = propagate(&adjacency, &[], 5).unwrap();

    assert_eq!(reached.len(), 5);
    assert!(reached[&d.index()] == both(
        "python_version < '3.10' and sys_platform == 'linux'",
        "extra == 'x'",
    ));
    assert!(propagate(&adjacency, &[], 4).is_err());
}

#[test]
fn decide_gives_an_unreached_target_the_candidate() {
    let candidate = pep508("sys_platform == 'linux'");
    let merged = pep508("sys_platform == 'darwin'");
    assert!(decide(None, candidate, merged) == Some(candidate));
}

#[test]
fn decide_gives_a_reached_target_the_union_if_it_differs() {
    let had = pep508("sys_platform == 'linux'");
    let candidate = pep508("sys_platform == 'darwin'");
    let merged = pep508("sys_platform == 'linux' or sys_platform == 'darwin'");
    assert!(decide(Some(had), candidate, merged) == Some(merged));
}

#[test]
fn decide_leaves_a_reached_target_alone_if_the_union_is_what_it_had() {
    let had = pep508("sys_platform == 'linux' or sys_platform == 'darwin'");
    let candidate = pep508("sys_platform == 'darwin'");
    assert!(decide(Some(had), candidate, had) == None);
}

fn tangle(weight: UniversalMarker) -> (DependencyGraph, Vec<usize>, usize) {
    let mut graph: DependencyGraph = Graph::new();
    let r = graph.add_node(ResolutionGraphNode::Root);
    let a = graph.add_node(package());
    let b = graph.add_node(package());
    let c = graph.add_node(package());
    let lost = graph.add_node(package());
    let apart = graph.add_node(package());
    graph.add_edge(r, a, weight);
    graph.add_edge(r, b, weight);
    graph.add_edge(a, c, weight);
    graph.add_edge(b, c, weight);
    graph.add_edge(c, a, weight);
    graph.add_edge(c, c, weight);
    graph.add_edge(lost, apart, weight);
    graph.add_edge(apart, lost, weight);
    (graph, vec![a.index(), b.index(), c.index()], r.index())
}

#[test]
fn reachability_hands_on_the_root_condition_where_every_edge_is_followed_always() {
    let (graph, below, root) = tangle(UniversalMarker::always());

    let reached = marker_reachability(&graph, &[]).unwrap();

    assert_eq!(reached.len(), 4);
    assert!(reached[&root] == UniversalMarker::always());
    for node in &below {
        assert!(reached[node] == UniversalMarker::always());
    }
}

#[test]
fn reachability_hands_on_the_union_of_the_forks_where_every_edge_is_followed_always() {
    let (graph, below, root) = tangle(UniversalMarker::always());
    let forks = [
        both("sys_platform == 'linux'", "extra == 'x'"),
        both("sys_platform == 'darwin'", "extra == 'y'"),
    ];

    let reached = marker_reachability(&graph, &forks).unwrap();
    let of_one = marker_reachability(&graph, &forks[..1]).unwrap();

    assert_eq!(reached.len(), 4);
    for node in below.iter().chain([&root]) {
        assert!(reached[node] == root_condition(&forks));
        assert!(of_one[node] == forks[0]);
    }
}

#[test]
fn propagate_takes_up_no_node_twice_where_every_edge_is_followed_always() {
    let (graph, _, _) = tangle(UniversalMarker::always());
    let adjacency = Adjacency::of(&graph);

    assert_eq!(propagate(&adjacency, &[], 6).unwrap().len(), 4);
    assert_eq!(propagate(&adjacency, &[], 4).unwrap().len(), 4);
    assert!(propagate(&adjacency, &[], 3).is_err());
}

#[test]
fn reachability_hands_on_the_weight_where_all_edges_have_the_same() {
    let weight = both("sys_platform == 'linux'", "extra == 'x'");
    let (graph, below, root) = tangle(weight);

    let reached = marker_reachability(&graph, &[]).unwrap();

    assert_eq!(reached.len(), 4);
    assert!(reached[&root] == UniversalMarker::always());
    for node in &below {
        assert!(reached[node] == weight);
    }
    assert_eq!(propagate(&Adjacency::of(&graph), &[], 4).unwrap().len(), 4);
}
