//! Sets of extras that exclude each other, the pairs of extras that they
//! rule out, and the marker that says that two extras of one pair are
//! switched on together.

use crate::predicate::{
    always, bottom, clone_extra, extra_marker, is_conjunction, is_disjunction, marker_extra,
    marker_holds, marker_is_false, marker_is_true, never,
};
use uv_normalize::ExtraName;
use uv_pep508::{MarkerEnvironment, MarkerTree};
use uv_pypi_types::Conflicts;
use vstd::prelude::*;

verus! {

/// `uv_pypi_types::Conflicts`: a list of sets of items that conflict with
/// each other.
#[verifier::external_type_specification]
#[verifier::external_body]
pub struct ExConflicts(Conflicts);

/// For each set of a `Conflicts`, in the order of `Conflicts::iter`, and for
/// each item of that set, in the order of `ConflictSet::iter`: the extra of
/// the item, as `ConflictItem::extra` gives it.
pub uninterp spec fn conflict_extras(conflicts: Conflicts) -> Seq<Seq<Option<ExtraName>>>;

/// The lists that a vector of vectors holds.
pub open spec fn groups_of(vectors: Seq<Vec<Option<ExtraName>>>) -> Seq<Seq<Option<ExtraName>>> {
    Seq::new(vectors.len(), |i: int| vectors[i]@)
}

/// `Conflicts::iter`, `ConflictSet::iter` and `ConflictItem::extra`: the
/// extras of the items of each set, copied out in the order of the two
/// iterators. The first walks a vector, the second an ordered set.
#[verifier::external_body]
pub(crate) fn extras_of(conflicts: &Conflicts) -> (groups: Vec<Vec<Option<ExtraName>>>)
    ensures
        groups_of(groups@) == conflict_extras(*conflicts),
{
    conflicts.iter().map(|set| set.iter().map(|item| item.extra().cloned()).collect()).collect()
}

/// The pairs of the item at `first` with each item from position `second`
/// on, as far as both are extras, added to `pairs` one after the other.
pub open spec fn pairs_in_row(
    pairs: Seq<(ExtraName, ExtraName)>,
    items: Seq<Option<ExtraName>>,
    first: int,
    second: int,
) -> Seq<(ExtraName, ExtraName)>
    decreases items.len() - second,
{
    if second < 0 || second >= items.len() {
        pairs
    } else {
        pairs_in_row(
            match (items[first], items[second]) {
                (Some(a), Some(b)) => pairs.push((a, b)),
                _ => pairs,
            },
            items,
            first,
            second + 1,
        )
    }
}

/// Every pair of two extras of a group of which the earlier one stands at
/// position `first` or later, added to `pairs`: first the pairs of the item at
/// `first` with each item after it, then those of the next item, and so on.
pub open spec fn pairs_in_group(
    pairs: Seq<(ExtraName, ExtraName)>,
    items: Seq<Option<ExtraName>>,
    first: int,
) -> Seq<(ExtraName, ExtraName)>
    decreases items.len() - first,
{
    if first < 0 || first >= items.len() {
        pairs
    } else {
        pairs_in_group(pairs_in_row(pairs, items, first, first + 1), items, first + 1)
    }
}

/// The pairs of each group from position `from` on, added to `pairs` one
/// group after the other.
pub open spec fn pairs_in_groups(
    pairs: Seq<(ExtraName, ExtraName)>,
    groups: Seq<Seq<Option<ExtraName>>>,
    from: int,
) -> Seq<(ExtraName, ExtraName)>
    decreases groups.len() - from,
{
    if from < 0 || from >= groups.len() {
        pairs
    } else {
        pairs_in_groups(pairs_in_group(pairs, groups[from], 0), groups, from + 1)
    }
}

/// The pairs of extras that exclude each other: for each group in turn, every
/// two of its extras, the earlier one first.
pub open spec fn pairs_of(groups: Seq<Seq<Option<ExtraName>>>) -> Seq<(ExtraName, ExtraName)> {
    pairs_in_groups(Seq::empty(), groups, 0)
}

/// Lists the pairs of extras that exclude each other.
pub fn conflicting_pairs(groups: &Vec<Vec<Option<ExtraName>>>) -> (pairs: Vec<(ExtraName, ExtraName)>)
    ensures
        pairs@ == pairs_of(groups_of(groups@)),
{
    let ghost all = groups_of(groups@);
    let mut pairs: Vec<(ExtraName, ExtraName)> = Vec::new();
    let mut g: usize = 0;
    while g < groups.len()
        invariant
            g <= groups@.len(),
            all == groups_of(groups@),
            pairs_of(all) == pairs_in_groups(pairs@, all, g as int),
        decreases groups@.len() - g,
    {
        let items = &groups[g];
        let ghost start = pairs@;
        let mut i: usize = 0;
        while i < items.len()
            invariant
                i <= items@.len(),
                pairs_in_group(start, items@, 0) == pairs_in_group(pairs@, items@, i as int),
            decreases items@.len() - i,
        {
            let ghost row = pairs@;
            let mut j: usize = i + 1;
            while j < items.len()
                invariant
                    i < items@.len(),
                    i < j <= items@.len(),
                    pairs_in_row(row, items@, i as int, i + 1) == pairs_in_row(
                        pairs@,
                        items@,
                        i as int,
                        j as int,
                    ),
                decreases items@.len() - j,
            {
                match (&items[i], &items[j]) {
                    (Some(first), Some(second)) => {
                        pairs.push((clone_extra(first), clone_extra(second)));
                    },
                    _ => {},
                }
                j += 1;
            }
            i += 1;
        }
        assert(all[g as int] == items@);
        g += 1;
    }
    pairs
}

/// The marker `excluded` is what the engine made of "two extras of one pair
/// are switched on together": `conjunctions` holds, for each pair, a
/// conjunction of the tests for its two extras, and `unions` the disjunctions
/// of these, built up from the false marker one pair after the other, of
/// which `excluded` is the last.
pub open spec fn is_exclusion(
    pairs: Seq<(ExtraName, ExtraName)>,
    conjunctions: Seq<MarkerTree>,
    unions: Seq<MarkerTree>,
    excluded: MarkerTree,
) -> bool {
    &&& conjunctions.len() == pairs.len()
    &&& unions.len() == pairs.len() + 1
    &&& unions[0] == bottom()
    &&& marker_is_false(unions[0])
    &&& excluded == unions[pairs.len() as int]
    &&& forall|i: int|
        0 <= i < pairs.len() ==> is_conjunction(
            marker_extra((#[trigger] pairs[i]).0),
            marker_extra(pairs[i].1),
            conjunctions[i],
        ) && is_disjunction(unions[i], conjunctions[i], unions[i + 1])
}

/// Builds a marker for "two extras of one pair are switched on together": the
/// engine's disjunction, over the pairs, of its conjunction of the tests for
/// the two extras. Which markers the engine hands back on the way, it
/// decides; without a pair the result is the false marker.
pub fn exclusion_marker(pairs: &Vec<(ExtraName, ExtraName)>) -> (excluded: MarkerTree)
    ensures
        exists|conjunctions: Seq<MarkerTree>, unions: Seq<MarkerTree>| #[trigger]
            is_exclusion(pairs@, conjunctions, unions, excluded),
        pairs@.len() == 0 ==> excluded == bottom() && marker_is_false(excluded),
{
    let mut marker = never();
    let ghost mut conjunctions: Seq<MarkerTree> = Seq::empty();
    let ghost mut unions: Seq<MarkerTree> = Seq::empty().push(marker);
    let mut i: usize = 0;
    while i < pairs.len()
        invariant
            i <= pairs@.len(),
            conjunctions.len() == i,
            unions.len() == i + 1,
            unions[0] == bottom(),
            marker_is_false(unions[0]),
            marker == unions[i as int],
            forall|k: int|
                0 <= k < i ==> is_conjunction(
                    marker_extra((#[trigger] pairs@[k]).0),
                    marker_extra(pairs@[k].1),
                    conjunctions[k],
                ) && is_disjunction(unions[k], conjunctions[k], unions[k + 1]),
        decreases pairs@.len() - i,
    {
        let mut pair = always();
        pair.and(extra_marker(&pairs[i].0));
        pair.and(extra_marker(&pairs[i].1));
        marker.or(pair);
        proof {
            conjunctions = conjunctions.push(pair);
            unions = unions.push(marker);
        }
        i += 1;
    }
    assert(is_exclusion(pairs@, conjunctions, unions, marker));
    marker
}

/// The two extras of one of the pairs are both switched on.
pub open spec fn a_pair_is_on(pairs: Seq<(ExtraName, ExtraName)>, extras: Seq<ExtraName>) -> bool {
    exists|i: int|
        0 <= i < pairs.len() && extras.contains((#[trigger] pairs[i]).0) && extras.contains(
            pairs[i].1,
        )
}

/// Where each of the engine's answers means what was asked for, the
/// exclusion holds exactly where the two extras of one of the pairs are
/// switched on.
pub proof fn law_exclusion_meaning(
    pairs: Seq<(ExtraName, ExtraName)>,
    conjunctions: Seq<MarkerTree>,
    unions: Seq<MarkerTree>,
    excluded: MarkerTree,
    env: MarkerEnvironment,
    extras: Seq<ExtraName>,
)
    requires
        is_exclusion(pairs, conjunctions, unions, excluded),
        !marker_holds(unions[0], env, extras),
        forall|i: int|
            0 <= i < pairs.len() ==> marker_holds(#[trigger] conjunctions[i], env, extras) == (
            extras.contains(pairs[i].0) && extras.contains(pairs[i].1)),
        forall|i: int|
            0 <= i < pairs.len() ==> marker_holds(#[trigger] unions[i + 1], env, extras) == (
            marker_holds(unions[i], env, extras) || marker_holds(conjunctions[i], env, extras)),
    ensures
        marker_holds(excluded, env, extras) == a_pair_is_on(pairs, extras),
{
    lemma_unions_meaning(pairs, conjunctions, unions, pairs.len() as int, env, extras);
    assert(pairs.take(pairs.len() as int) =~= pairs);
}

proof fn lemma_unions_meaning(
    pairs: Seq<(ExtraName, ExtraName)>,
    conjunctions: Seq<MarkerTree>,
    unions: Seq<MarkerTree>,
    upto: int,
    env: MarkerEnvironment,
    extras: Seq<ExtraName>,
)
    requires
        0 <= upto <= pairs.len(),
        conjunctions.len() == pairs.len(),
        unions.len() == pairs.len() + 1,
        !marker_holds(unions[0], env, extras),
        forall|i: int|
            0 <= i < pairs.len() ==> marker_holds(#[trigger] conjunctions[i], env, extras) == (
            extras.contains(pairs[i].0) && extras.contains(pairs[i].1)),
        forall|i: int|
            0 <= i < pairs.len() ==> marker_holds(#[trigger] unions[i + 1], env, extras) == (
            marker_holds(unions[i], env, extras) || marker_holds(conjunctions[i], env, extras)),
    ensures
        marker_holds(unions[upto], env, extras) == a_pair_is_on(pairs.take(upto), extras),
    decreases upto,
{
    let shorter = pairs.take(upto - 1);
    let now = pairs.take(upto);
    if upto > 0 {
        lemma_unions_meaning(pairs, conjunctions, unions, upto - 1, env, extras);
        assert(marker_holds(unions[(upto - 1) + 1], env, extras) == (marker_holds(
            unions[upto - 1],
            env,
            extras,
        ) || marker_holds(conjunctions[upto - 1], env, extras)));
        if a_pair_is_on(shorter, extras) {
            let i = choose|i: int|
                0 <= i < shorter.len() && extras.contains((#[trigger] shorter[i]).0)
                    && extras.contains(shorter[i].1);
            assert(now[i] == shorter[i]);
        }
        if marker_holds(conjunctions[upto - 1], env, extras) {
            assert(now[upto - 1] == pairs[upto - 1]);
        }
        if a_pair_is_on(now, extras) {
            let i = choose|i: int|
                0 <= i < now.len() && extras.contains((#[trigger] now[i]).0) && extras.contains(
                    now[i].1,
                );
            if i < upto - 1 {
                assert(shorter[i] == now[i]);
            } else {
                assert(now[i] == pairs[upto - 1]);
            }
        }
    }
}

/// What a marker means that has imbibed an exclusion. Let `excluded` hold
/// exactly where a pair of extras is switched on, and let `imbibed`, the
/// engine's implication, hold exactly where `excluded` holds or the marker
/// held before. Then the marker holds where it held before, and besides
/// wherever a pair is switched on: on every list of extras that respects the
/// pairs it evaluates as it did before.
pub proof fn law_imbibed_meaning(
    before: MarkerTree,
    excluded: MarkerTree,
    imbibed: MarkerTree,
    pairs: Seq<(ExtraName, ExtraName)>,
    env: MarkerEnvironment,
    extras: Seq<ExtraName>,
)
    requires
        marker_holds(excluded, env, extras) == a_pair_is_on(pairs, extras),
        marker_holds(imbibed, env, extras) == (marker_holds(excluded, env, extras) || marker_holds(
            before,
            env,
            extras,
        )),
    ensures
        marker_holds(imbibed, env, extras) == (a_pair_is_on(pairs, extras) || marker_holds(
            before,
            env,
            extras,
        )),
        !a_pair_is_on(pairs, extras) ==> marker_holds(imbibed, env, extras) == marker_holds(
            before,
            env,
            extras,
        ),
{
}

/// To imbibe the same exclusion a second time changes nothing in what the
/// marker evaluates to, where both of the engine's implications hold exactly
/// where `excluded` holds or the marker held before.
pub proof fn law_imbibed_twice(
    before: MarkerTree,
    excluded: MarkerTree,
    once: MarkerTree,
    twice: MarkerTree,
    env: MarkerEnvironment,
    extras: Seq<ExtraName>,
)
    requires
        marker_holds(once, env, extras) == (marker_holds(excluded, env, extras) || marker_holds(
            before,
            env,
            extras,
        )),
        marker_holds(twice, env, extras) == (marker_holds(excluded, env, extras) || marker_holds(
            once,
            env,
            extras,
        )),
    ensures
        marker_holds(twice, env, extras) == marker_holds(once, env, extras),
{
}

/// To imbibe the same exclusion a second time leaves the marker as the first
/// time left it wherever the engine settles the first implication before it
/// looks into its tables: where nothing is excluded, where the marker was the
/// false marker, and where it was the exclusion itself. And a marker that the
/// first time made the true marker is the true marker after the second.
pub proof fn law_imbibed_twice_where_settled(
    before: MarkerTree,
    excluded: MarkerTree,
    once: MarkerTree,
    twice: MarkerTree,
)
    requires
        is_disjunction(excluded, before, once),
        is_disjunction(excluded, once, twice),
    ensures
        marker_is_false(excluded) || marker_is_false(before) || before == excluded ==> twice
            == once,
        marker_is_true(once) ==> marker_is_true(twice),
{
}

} // verus!
