use itertools::Itertools;
use marker_graph::conflicts::{conflicting_pairs, exclusion_marker};
use marker_graph::universal_marker::disjoint_if_either;
use marker_graph::UniversalMarker;
use std::str::FromStr;
use uv_normalize::{ExtraName, PackageName};
use uv_pep508::{
    ExtraOperator, MarkerEnvironment, MarkerEnvironmentBuilder, MarkerExpression, MarkerTree,
    MarkerValueExtra,
};
use uv_pypi_types::{ConflictItem, ConflictSet, Conflicts};

fn tree(text: &str) -> MarkerTree {
    MarkerTree::from_str(text).unwrap()
}

fn extra(name: &str) -> ExtraName {
    ExtraName::from_str(name).unwrap()
}

fn on_platform(sys_platform: &str) -> MarkerEnvironment {
    MarkerEnvironment::try_from(MarkerEnvironmentBuilder {
        implementation_name: "cpython",
        implementation_version: "3.12.1",
        os_name: "posix",
        platform_machine: "x86_64",
        platform_python_implementation: "CPython",
        platform_release: "6.1.0",
        platform_system: "Linux",
        platform_version: "#1 SMP",
        python_full_version: "3.12.1",
        python_version: "3.12",
        sys_platform,
    })
    .unwrap()
}

fn conflicts_between(groups: &[&[&str]]) -> Conflicts {
    let package = PackageName::from_str("project").unwrap();
    let mut conflicts = Conflicts::empty();
    for group in groups {
        let items: Vec<ConflictItem> = group
            .iter()
            .map(|name| ConflictItem::from((package.clone(), extra(name))))
            .collect();
        conflicts.push(ConflictSet::try_from(items).unwrap());
    }
    conflicts
}

fn extra_is(name: &ExtraName) -> MarkerTree {
    MarkerTree::expression(MarkerExpression::Extra {
        operator: ExtraOperator::Equal,
        name: MarkerValueExtra::Extra(name.clone()),
    })
}

#[test]
fn new_keeps_both_markers() {
    let marker = UniversalMarker::new(tree("sys_platform == 'linux'"), tree("extra == 'a'"));
    assert!(*marker.pep508() == tree("sys_platform == 'linux'"));
    assert!(*marker.conflict() == tree("extra == 'a'"));
}

#[test]
fn always_and_never_are_the_trivial_markers() {
    assert!(*UniversalMarker::always().pep508() == MarkerTree::TRUE);
    assert!(*UniversalMarker::always().conflict() == MarkerTree::TRUE);
    assert!(*UniversalMarker::never().pep508() == MarkerTree::FALSE);
    assert!(*UniversalMarker::never().conflict() == MarkerTree::FALSE);
    assert!(UniversalMarker::default() == UniversalMarker::always());
    assert!(UniversalMarker::always() != UniversalMarker::never());
}

#[test]
fn equality_compares_both_markers() {
    let a = UniversalMarker::new(tree("sys_platform == 'linux'"), tree("extra == 'a'"));
    let same = UniversalMarker::new(tree("sys_platform == 'linux'"), tree("extra == 'a'"));
    let other_pep508 = UniversalMarker::new(tree("sys_platform == 'darwin'"), tree("extra == 'a'"));
    let other_conflict = UniversalMarker::new(tree("sys_platform == 'linux'"), tree("extra == 'b'"));
    assert!(a == same);
    assert!(a != other_pep508);
    assert!(a != other_conflict);
}

#[test]
fn or_unions_each_marker_on_its_own() {
    let mut marker = UniversalMarker::new(tree("sys_platform == 'linux'"), tree("extra == 'a'"));
    marker.or(UniversalMarker::new(tree("sys_platform == 'darwin'"), tree("extra == 'b'")));
    assert!(
        *marker.pep508() == tree("sys_platform == 'linux' or sys_platform == 'darwin'")
    );
    assert!(*marker.conflict() == tree("extra == 'a' or extra == 'b'"));
    // The PEP 508 marker holds by the first operand, the conflict marker by the second.
    assert!(marker.evaluate(&on_platform("linux"), &[extra("b")]));
}

#[test]
fn and_intersects_each_marker_on_its_own() {
    let mut marker = UniversalMarker::new(tree("python_version >= '3.8'"), tree("extra == 'a'"));
    marker.and(UniversalMarker::new(tree("sys_platform == 'linux'"), tree("extra == 'b'")));
    assert!(*marker.pep508() == tree("python_version >= '3.8' and sys_platform == 'linux'"));
    assert!(*marker.conflict() == tree("extra == 'a' and extra == 'b'"));
    assert!(marker.evaluate(&on_platform("linux"), &[extra("a"), extra("b")]));
    assert!(!marker.evaluate(&on_platform("linux"), &[extra("a")]));
    assert!(!marker.evaluate(&on_platform("darwin"), &[extra("a"), extra("b")]));
}

#[test]
fn is_true_needs_both_markers_true() {
    assert!(UniversalMarker::always().is_true());
    assert!(!UniversalMarker::new(MarkerTree::TRUE, tree("extra == 'a'")).is_true());
    assert!(!UniversalMarker::new(tree("sys_platform == 'linux'"), MarkerTree::TRUE).is_true());
    assert!(!UniversalMarker::never().is_true());
}

#[test]
fn is_false_needs_one_marker_false() {
    assert!(UniversalMarker::never().is_false());
    assert!(UniversalMarker::new(MarkerTree::FALSE, MarkerTree::TRUE).is_false());
    assert!(UniversalMarker::new(MarkerTree::TRUE, MarkerTree::FALSE).is_false());
    assert!(!UniversalMarker::always().is_false());
    assert!(!UniversalMarker::new(tree("sys_platform == 'linux'"), tree("extra == 'a'")).is_false());
}

#[test]
fn is_disjoint_needs_one_pair_of_markers_disjoint() {
    let linux_a = UniversalMarker::new(tree("sys_platform == 'linux'"), tree("extra == 'a'"));
    let darwin_a = UniversalMarker::new(tree("sys_platform == 'darwin'"), tree("extra == 'a'"));
    let linux_not_a = UniversalMarker::new(tree("sys_platform == 'linux'"), tree("extra != 'a'"));
    let linux_b = UniversalMarker::new(tree("sys_platform == 'linux'"), tree("extra == 'b'"));
    assert!(linux_a.is_disjoint(&darwin_a));
    assert!(linux_a.is_disjoint(&linux_not_a));
    assert!(!linux_a.is_disjoint(&linux_b));
    assert!(!linux_a.is_disjoint(&linux_a));
}

#[test]
fn evaluate_needs_both_markers_to_hold() {
    let marker = UniversalMarker::new(tree("sys_platform == 'linux'"), tree("extra == 'a'"));
    assert!(marker.evaluate(&on_platform("linux"), &[extra("a")]));
    assert!(!marker.evaluate(&on_platform("linux"), &[]));
    assert!(!marker.evaluate(&on_platform("darwin"), &[extra("a")]));
    assert!(!marker.evaluate(&on_platform("darwin"), &[extra("b")]));
}

#[test]
fn assume_extra_drops_the_test_for_that_extra() {
    let mut marker = UniversalMarker::new(
        tree("sys_platform == 'linux'"),
        tree("extra == 'a' and extra == 'b'"),
    );
    marker.assume_extra(&extra("a"));
    assert!(*marker.pep508() == tree("sys_platform == 'linux'"));
    assert!(*marker.conflict() == tree("extra == 'b'"));
    marker.assume_extra(&extra("b"));
    assert!(marker.conflict().is_true());
}

#[test]
fn assume_extra_leaves_other_extras_alone() {
    let mut marker = UniversalMarker::new(MarkerTree::TRUE, tree("extra == 'b'"));
    marker.assume_extra(&extra("a"));
    assert!(*marker.conflict() == tree("extra == 'b'"));
}

#[test]
fn assumed_extra_keeps_evaluation_where_it_is_switched_on() {
    let before = UniversalMarker::new(
        tree("sys_platform == 'linux'"),
        tree("(extra == 'a' and extra != 'b') or extra == 'c'"),
    );
    let mut after = before;
    after.assume_extra(&extra("a"));
    let names = [extra("a"), extra("b"), extra("c")];
    for env in [on_platform("linux"), on_platform("darwin")] {
        for with_b in [false, true] {
            for with_c in [false, true] {
                let mut extras = vec![names[0].clone()];
                if with_b {
                    extras.push(names[1].clone());
                }
                if with_c {
                    extras.push(names[2].clone());
                }
                assert_eq!(after.evaluate(&env, &extras), before.evaluate(&env, &extras));
            }
        }
    }
}

#[test]
fn imbibe_without_conflicts_changes_nothing() {
    let before = UniversalMarker::new(tree("sys_platform == 'linux'"), tree("extra == 'a'"));
    let mut after = before;
    after.imbibe(&Conflicts::empty());
    assert!(after == before);
}

#[test]
fn imbibe_drops_what_the_conflicts_settle() {
    let conflicts = conflicts_between(&[&["a", "b"]]);
    let mut marker = UniversalMarker::new(
        tree("sys_platform == 'linux'"),
        tree("extra != 'a' or extra != 'b'"),
    );
    marker.imbibe(&conflicts);
    assert!(*marker.pep508() == tree("sys_platform == 'linux'"));
    assert!(marker.conflict().is_true());
}

#[test]
fn imbibe_keeps_a_choice_between_exclusive_extras_satisfiable() {
    let conflicts = conflicts_between(&[&["a", "b"]]);
    let mut marker = UniversalMarker::new(MarkerTree::TRUE, tree("extra == 'a' or extra == 'b'"));
    marker.imbibe(&conflicts);
    assert!(!marker.is_false());
    let env = on_platform("linux");
    assert!(marker.evaluate(&env, &[extra("a")]));
    assert!(marker.evaluate(&env, &[extra("b")]));
    assert!(!marker.evaluate(&env, &[]));
}

#[test]
fn imbibe_leaves_both_extras_at_once_to_inconsistent_lists_only() {
    let conflicts = conflicts_between(&[&["a", "b"]]);
    let mut marker = UniversalMarker::new(MarkerTree::TRUE, tree("extra == 'a' and extra == 'b'"));
    marker.imbibe(&conflicts);
    let env = on_platform("linux");
    assert!(!marker.evaluate(&env, &[]));
    assert!(!marker.evaluate(&env, &[extra("a")]));
    assert!(!marker.evaluate(&env, &[extra("b")]));
    assert!(marker.evaluate(&env, &[extra("a"), extra("b")]));
}

#[test]
fn imbibe_builds_the_implication_by_the_negated_exclusion() {
    let conflicts = conflicts_between(&[&["a", "b", "c"], &["d", "e"]]);
    let old = tree("extra == 'a' or extra == 'd'");
    let mut marker = UniversalMarker::new(tree("sys_platform == 'linux'"), old);
    marker.imbibe(&conflicts);

    let mut excluded = MarkerTree::FALSE;
    for set in conflicts.iter() {
        for (first, second) in set.iter().tuple_combinations() {
            let mut pair = MarkerTree::TRUE;
            pair.and(extra_is(first.extra().unwrap()));
            pair.and(extra_is(second.extra().unwrap()));
            excluded.or(pair);
        }
    }
    let mut expected = excluded.negate();
    expected.implies(old);
    assert!(*marker.conflict() == expected);
    assert!(*marker.pep508() == tree("sys_platform == 'linux'"));
}

#[test]
fn imbibe_twice_is_imbibe_once() {
    let conflicts = conflicts_between(&[&["a", "b"], &["b", "c", "d"]]);
    for text in [
        "extra == 'a'",
        "extra == 'a' or extra == 'b'",
        "extra == 'a' and extra == 'b'",
        "extra != 'b' or extra != 'c'",
        "(extra == 'a' and extra != 'd') or extra == 'c'",
    ] {
        let mut once = UniversalMarker::new(tree("sys_platform == 'linux'"), tree(text));
        once.imbibe(&conflicts);
        let mut twice = once;
        twice.imbibe(&conflicts);
        assert!(twice == once);
    }
}

#[test]
fn imbibed_marker_evaluates_as_before_on_consistent_extras() {
    let conflicts = conflicts_between(&[&["a", "b"]]);
    let before = UniversalMarker::new(MarkerTree::TRUE, tree("extra == 'a' or extra == 'c'"));
    let mut after = before;
    after.imbibe(&conflicts);
    let env = on_platform("linux");
    for extras in [
        vec![],
        vec![extra("a")],
        vec![extra("b")],
        vec![extra("c")],
        vec![extra("a"), extra("c")],
        vec![extra("b"), extra("c")],
    ] {
        assert_eq!(after.evaluate(&env, &extras), before.evaluate(&env, &extras));
    }
    // Where both exclusive extras are switched on, the implication holds by itself.
    assert!(after.evaluate(&env, &[extra("a"), extra("b")]));
}

#[test]
fn conflicting_pairs_pairs_up_the_extras_of_each_group() {
    let groups = vec![
        vec![Some(extra("a")), None, Some(extra("b")), Some(extra("c"))],
        vec![Some(extra("d"))],
        vec![],
        vec![Some(extra("d")), Some(extra("e"))],
    ];
    assert_eq!(
        conflicting_pairs(&groups),
        vec![
            (extra("a"), extra("b")),
            (extra("a"), extra("c")),
            (extra("b"), extra("c")),
            (extra("d"), extra("e")),
        ]
    );
}

#[test]
fn conflicting_pairs_follow_the_order_of_the_combinations() {
    let names = ["a", "b", "c", "d", "e"];
    let group: Vec<Option<ExtraName>> = names.iter().map(|name| Some(extra(name))).collect();
    let expected: Vec<(ExtraName, ExtraName)> = names
        .iter()
        .map(|name| extra(name))
        .tuple_combinations()
        .collect();
    assert_eq!(conflicting_pairs(&vec![group]), expected);
    assert_eq!(expected.len(), 10);
}

#[test]
fn conflicting_pairs_of_no_two_extras_are_none() {
    assert!(conflicting_pairs(&vec![]).is_empty());
    assert!(conflicting_pairs(&vec![vec![Some(extra("a"))], vec![None, None]]).is_empty());
}

#[test]
fn exclusion_marker_holds_where_a_pair_is_switched_on() {
    let pairs = vec![
        (extra("a"), extra("b")),
        (extra("a"), extra("c")),
        (extra("d"), extra("e")),
    ];
    let excluded = exclusion_marker(&pairs);
    let expected = tree(
        "(extra == 'a' and extra == 'b') or (extra == 'a' and extra == 'c') \
         or (extra == 'd' and extra == 'e')",
    );
    assert!(excluded == expected);
}

#[test]
fn exclusion_marker_of_one_pair_is_the_conjunction() {
    let excluded = exclusion_marker(&vec![(extra("a"), extra("b"))]);
    assert!(excluded == tree("extra == 'a' and extra == 'b'"));
}

#[test]
fn exclusion_marker_of_no_pair_is_false() {
    assert!(exclusion_marker(&vec![]).is_false());
}

#[test]
fn imbibe_excluded_is_imbibe_with_the_exclusion_built_before() {
    let conflicts = conflicts_between(&[&["a", "b", "c"], &["d", "e"]]);
    let groups: Vec<Vec<Option<ExtraName>>> = conflicts
        .iter()
        .map(|set| set.iter().map(|item| item.extra().cloned()).collect())
        .collect();
    let excluded = exclusion_marker(&conflicting_pairs(&groups));
    for text in ["extra == 'a'", "extra != 'b' or extra != 'c'", "extra == 'd' and extra == 'e'"] {
        let mut at_once = UniversalMarker::new(tree("sys_platform == 'linux'"), tree(text));
        at_once.imbibe(&conflicts);
        let mut in_steps = UniversalMarker::new(tree("sys_platform == 'linux'"), tree(text));
        in_steps.imbibe_excluded(excluded);
        assert!(at_once == in_steps);
    }
}

#[test]
fn imbibe_excluded_with_nothing_excluded_changes_nothing() {
    let before = UniversalMarker::new(tree("sys_platform == 'linux'"), tree("extra == 'a'"));
    let mut after = before;
    after.imbibe_excluded(MarkerTree::FALSE);
    assert!(after == before);
}

#[test]
fn imbibe_of_conflicts_without_a_pair_of_extras_changes_nothing() {
    let package = PackageName::from_str("project").unwrap();
    let other = PackageName::from_str("other").unwrap();
    let mut conflicts = Conflicts::empty();
    conflicts.push(
        ConflictSet::try_from(vec![
            ConflictItem::from((package, extra("a"))),
            ConflictItem::from(other),
        ])
        .unwrap(),
    );
    let before = UniversalMarker::new(tree("sys_platform == 'linux'"), tree("extra == 'a'"));
    let mut after = before;
    after.imbibe(&conflicts);
    assert!(after == before);
}

#[test]
fn or_and_of_trivial_markers_are_settled() {
    let marker = UniversalMarker::new(tree("sys_platform == 'linux'"), tree("extra == 'a'"));
    let mut widened = UniversalMarker::never();
    widened.or(marker);
    assert!(widened == marker);
    let mut narrowed = UniversalMarker::always();
    narrowed.and(marker);
    assert!(narrowed == marker);
    let mut same = marker;
    same.or(marker);
    assert!(same == marker);
    same.and(marker);
    assert!(same == marker);
    let mut all = marker;
    all.or(UniversalMarker::always());
    assert!(all.is_true());
    let mut none = marker;
    none.and(UniversalMarker::never());
    assert!(none.is_false());
    let mut complement = UniversalMarker::new(
        tree("sys_platform != 'linux'"),
        tree("extra != 'a'"),
    );
    complement.or(marker);
    assert!(complement.is_true());
}

#[test]
fn to_string_of_a_false_marker() {
    assert_eq!(UniversalMarker::never().to_string(), "always false");
    assert_eq!(
        UniversalMarker::new(tree("sys_platform == 'linux'"), MarkerTree::FALSE).to_string(),
        "always false"
    );
    assert_eq!(
        UniversalMarker::new(MarkerTree::FALSE, tree("extra == 'a'")).to_string(),
        "always false"
    );
}

#[test]
fn to_string_of_a_true_marker() {
    assert_eq!(UniversalMarker::always().to_string(), "always true");
}

#[test]
fn to_string_of_a_pep508_marker_alone() {
    assert_eq!(
        UniversalMarker::new(tree("sys_platform == 'linux'"), MarkerTree::TRUE).to_string(),
        "`sys_platform == 'linux'`"
    );
}

#[test]
fn to_string_of_a_conflict_marker_alone() {
    assert_eq!(
        UniversalMarker::new(MarkerTree::TRUE, tree("extra == 'a'")).to_string(),
        "(conflict marker: `extra == 'a'`)"
    );
}

#[test]
fn to_string_of_both_markers() {
    assert_eq!(
        UniversalMarker::new(tree("sys_platform == 'linux'"), tree("extra == 'a'")).to_string(),
        "`sys_platform == 'linux'` (conflict marker: `extra == 'a'`)"
    );
}

#[test]
fn disjoint_if_either_pair_is() {
    assert!(!disjoint_if_either(false, false));
    assert!(disjoint_if_either(true, false));
    assert!(disjoint_if_either(false, true));
    assert!(disjoint_if_either(true, true));
}

#[test]
fn is_disjoint_is_what_the_engine_finds_for_either_pair() {
    let markers = [
        UniversalMarker::new(tree("sys_platform == 'linux'"), tree("extra == 'a'")),
        UniversalMarker::new(tree("sys_platform == 'darwin'"), tree("extra == 'a'")),
        UniversalMarker::new(tree("sys_platform == 'linux'"), tree("extra != 'a'")),
        UniversalMarker::new(tree("sys_platform != 'linux'"), tree("extra == 'b'")),
        UniversalMarker::new(tree("python_full_version < '3.9'"), tree("extra == 'a' or extra == 'b'")),
        UniversalMarker::new(tree("python_full_version >= '3.11'"), MarkerTree::TRUE),
        UniversalMarker::always(),
        UniversalMarker::never(),
    ];
    for a in &markers {
        for b in &markers {
            let pep508 = a.pep508().is_disjoint(*b.pep508());
            let conflict = a.conflict().is_disjoint(*b.conflict());
            assert_eq!(a.is_disjoint(b), pep508 || conflict);
            assert_eq!(a.is_disjoint(b), b.is_disjoint(a));
        }
    }
}

#[test]
fn is_disjoint_by_the_platforms_alone_and_by_the_extras_alone() {
    let a = UniversalMarker::new(tree("sys_platform == 'linux'"), tree("extra == 'extra_a'"));
    let b = UniversalMarker::new(tree("sys_platform == 'darwin'"), tree("extra == 'extra_a'"));
    let c = UniversalMarker::new(tree("sys_platform == 'linux'"), tree("extra != 'extra_a'"));
    assert!(a.is_disjoint(&b));
    assert!(a.is_disjoint(&c));
    assert!(!a.is_disjoint(&a));
}

#[test]
fn disjoint_markers_never_hold_together() {
    let a = UniversalMarker::new(tree("sys_platform == 'linux'"), tree("extra == 'a'"));
    let b = UniversalMarker::new(tree("sys_platform == 'darwin'"), tree("extra == 'a'"));
    let c = UniversalMarker::new(tree("sys_platform == 'linux'"), tree("extra != 'a'"));
    assert!(a.is_disjoint(&b) && a.is_disjoint(&c));
    for env in [on_platform("linux"), on_platform("darwin")] {
        for extras in [vec![], vec![extra("a")], vec![extra("b")], vec![extra("a"), extra("b")]] {
            assert!(!(a.evaluate(&env, &extras) && b.evaluate(&env, &extras)));
            assert!(!(a.evaluate(&env, &extras) && c.evaluate(&env, &extras)));
        }
    }
}

#[test]
fn evaluate_of_trivial_markers_is_settled() {
    for env in [on_platform("linux"), on_platform("win32")] {
        for extras in [vec![], vec![extra("a")]] {
            assert!(UniversalMarker::always().evaluate(&env, &extras));
            assert!(!UniversalMarker::never().evaluate(&env, &extras));
            assert!(!UniversalMarker::new(MarkerTree::TRUE, MarkerTree::FALSE).evaluate(&env, &extras));
            assert!(!UniversalMarker::new(MarkerTree::FALSE, MarkerTree::TRUE).evaluate(&env, &extras));
        }
    }
}

#[test]
fn assume_extra_leaves_a_trivial_conflict_marker_alone() {
    for conflict in [MarkerTree::TRUE, MarkerTree::FALSE] {
        let before = UniversalMarker::new(tree("sys_platform == 'linux'"), conflict);
        let mut after = before;
        after.assume_extra(&extra("a"));
        assert!(after == before);
    }
}

#[test]
fn imbibe_twice_leaves_the_markers_that_the_engine_settles_at_once() {
    let conflicts = conflicts_between(&[&["a", "b"]]);
    let excluded = exclusion_marker(&conflicting_pairs(&vec![vec![Some(extra("a")), Some(extra("b"))]]));
    for conflict in [MarkerTree::FALSE, MarkerTree::TRUE, excluded, excluded.negate()] {
        let mut once = UniversalMarker::new(tree("sys_platform == 'linux'"), conflict);
        once.imbibe(&conflicts);
        let mut twice = once;
        twice.imbibe(&conflicts);
        assert!(twice == once);
        assert!(*twice.pep508() == tree("sys_platform == 'linux'"));
    }
    let mut of_false = UniversalMarker::new(MarkerTree::TRUE, MarkerTree::FALSE);
    of_false.imbibe(&conflicts);
    assert!(*of_false.conflict() == excluded);
    let mut of_true = UniversalMarker::new(MarkerTree::TRUE, MarkerTree::TRUE);
    of_true.imbibe(&conflicts);
    assert!(of_true.conflict().is_true());
}
