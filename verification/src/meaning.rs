//! What a marker means.
//!
//! The engine evaluates a marker in an environment and with a list of extras
//! that are switched on. This library never looks into a marker, and of the
//! engine's conjunctions and disjunctions it does not even know which marker
//! comes back. What it can say about the meaning of its results therefore
//! rests on conditions: that a marker which the engine handed back as a
//! union holds where one of the two operands holds, and so on. The conditions
//! are stated here, each for one environment and one list of extras; the laws
//! of this library that speak of evaluation hold wherever the conditions
//! that they name hold.
//!
//! The conditions do not hold everywhere. The engine takes some combinations
//! of marker values for impossible, such as a Windows `os_name` together with
//! a Linux `sys_platform`, and may simplify a conjunction that needs one of
//! them to the false marker. In an environment that has such a combination
//! all the same, the conjunction is then narrower than its two operands
//! together, and a disjunction may be wider.

use crate::predicate::{marker_assuming, marker_holds};
use crate::universal_marker::{group_universal_marker, UniversalMarker};
use uv_normalize::ExtraName;
use uv_pep508::{MarkerEnvironment, MarkerTree};
use vstd::prelude::*;

verus! {

broadcast use group_universal_marker;

/// One of the two markers of a universal marker: the conflict marker, or the
/// PEP 508 marker.
pub open spec fn part(marker: UniversalMarker, conflict: bool) -> MarkerTree {
    if conflict {
        marker@.conflict
    } else {
        marker@.pep508
    }
}

/// Whether one of the two markers of a universal marker holds.
pub open spec fn part_holds(
    marker: UniversalMarker,
    conflict: bool,
    env: MarkerEnvironment,
    extras: Seq<ExtraName>,
) -> bool {
    marker_holds(part(marker, conflict), env, extras)
}

/// The marker `both` means the intersection of `first` and `second` here: it
/// holds exactly where both hold.
pub open spec fn intersects_at(
    first: UniversalMarker,
    second: UniversalMarker,
    both: UniversalMarker,
    conflict: bool,
    env: MarkerEnvironment,
    extras: Seq<ExtraName>,
) -> bool {
    part_holds(both, conflict, env, extras) == (part_holds(first, conflict, env, extras)
        && part_holds(second, conflict, env, extras))
}

/// The marker `either` means the union of `first` and `second` here: it holds
/// exactly where one of them holds.
pub open spec fn unites_at(
    first: UniversalMarker,
    second: UniversalMarker,
    either: UniversalMarker,
    conflict: bool,
    env: MarkerEnvironment,
    extras: Seq<ExtraName>,
) -> bool {
    part_holds(either, conflict, env, extras) == (part_holds(first, conflict, env, extras)
        || part_holds(second, conflict, env, extras))
}

/// The marker `either` covers `first` and `second` here: it holds wherever
/// one of them holds. This is less than [`unites_at`] asks.
pub open spec fn covers_at(
    first: UniversalMarker,
    second: UniversalMarker,
    either: UniversalMarker,
    conflict: bool,
    env: MarkerEnvironment,
    extras: Seq<ExtraName>,
) -> bool {
    part_holds(first, conflict, env, extras) || part_holds(second, conflict, env, extras)
        ==> part_holds(either, conflict, env, extras)
}

/// In the environment `env` and with the extras `extras` switched on, to
/// assume an extra that is switched on leaves what a marker evaluates to as
/// it is.
pub open spec fn assumptions_keep_at(env: MarkerEnvironment, extras: Seq<ExtraName>) -> bool {
    forall|m: MarkerTree, extra: ExtraName|
        extras.contains(extra) ==> #[trigger] marker_holds(
            marker_assuming(m, seq![extra]),
            env,
            extras,
        ) == marker_holds(m, env, extras)
}

/// Where assumptions keep the meaning and the extra is switched on, to assume
/// the extra leaves what each marker of a universal marker evaluates to as it
/// is.
pub proof fn lemma_assume_holds(
    marker: UniversalMarker,
    extra: ExtraName,
    conflict: bool,
    env: MarkerEnvironment,
    extras: Seq<ExtraName>,
)
    requires
        assumptions_keep_at(env, extras),
        extras.contains(extra),
    ensures
        part_holds(marker.spec_assume_extra(extra), conflict, env, extras) == part_holds(
            marker,
            conflict,
            env,
            extras,
        ),
{
}

/// A marker that means the union of two universal markers in both of its
/// parts holds wherever one of the two holds. It may hold elsewhere too:
/// where the one has the PEP 508 marker on its side and the other the
/// conflict marker.
pub proof fn law_union_covers_both(
    a: UniversalMarker,
    b: UniversalMarker,
    either: UniversalMarker,
    env: MarkerEnvironment,
    extras: Seq<ExtraName>,
)
    requires
        covers_at(a, b, either, false, env, extras),
        covers_at(a, b, either, true, env, extras),
    ensures
        a.holds(env, extras) || b.holds(env, extras) ==> either.holds(env, extras),
{
}

/// A marker that means the intersection of two universal markers in both of
/// its parts holds exactly where both hold.
pub proof fn law_intersection_is_both(
    a: UniversalMarker,
    b: UniversalMarker,
    both: UniversalMarker,
    env: MarkerEnvironment,
    extras: Seq<ExtraName>,
)
    requires
        intersects_at(a, b, both, false, env, extras),
        intersects_at(a, b, both, true, env, extras),
    ensures
        both.holds(env, extras) == (a.holds(env, extras) && b.holds(env, extras)),
{
}

} // verus!
