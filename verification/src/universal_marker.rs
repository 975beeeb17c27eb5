//! The condition under which a node or an edge of the dependency graph is
//! live: a marker on the environment together with a marker on the optional
//! features that are switched on.

use crate::conflicts::{
    conflict_extras, conflicting_pairs, exclusion_marker, extras_of, is_exclusion, pairs_of,
};
use crate::predicate::{
    always, bottom, is_conjunction, is_disjunction, marker_assuming, marker_holds, marker_is_false,
    marker_is_true, marker_not, marker_text, never, same_marker, top,
};
use uv_normalize::ExtraName;
use uv_pep508::{MarkerEnvironment, MarkerTree};
use uv_pypi_types::Conflicts;
use vstd::prelude::*;
use vstd::std_specs::cmp::PartialEqSpecImpl;
use vstd::string::StringExecFns;

verus! {

/// What a [`UniversalMarker`] is made of.
pub struct MarkerPair {
    /// The marker on the environment.
    pub pep508: MarkerTree,
    /// The marker on the features that are switched on.
    pub conflict: MarkerTree,
}

/// A marker for a resolution that covers several environments at once.
///
/// It pairs a PEP 508 marker with a marker on conflicting extras. The second
/// says whether an edge of a dependency graph is followed, depending on the
/// extras that are switched on. A universal marker holds only where both of
/// its markers hold.
#[derive(Debug, Clone, Copy, Hash, PartialOrd, Ord)]
pub struct UniversalMarker {
    pep508_marker: MarkerTree,
    conflict_marker: MarkerTree,
}

impl View for UniversalMarker {
    type V = MarkerPair;

    closed spec fn view(&self) -> MarkerPair {
        MarkerPair { pep508: self.pep508_marker, conflict: self.conflict_marker }
    }
}

impl PartialEq for UniversalMarker {
    fn eq(&self, other: &Self) -> (r: bool) {
        same_marker(self.pep508_marker, other.pep508_marker) && same_marker(
            self.conflict_marker,
            other.conflict_marker,
        )
    }
}

impl PartialEqSpecImpl for UniversalMarker {
    open spec fn obeys_eq_spec() -> bool {
        true
    }

    open spec fn eq_spec(&self, other: &Self) -> bool {
        self@ == other@
    }
}

impl Eq for UniversalMarker {
}

impl Default for UniversalMarker {
    /// The marker that holds everywhere.
    fn default() -> (r: Self)
        ensures
            r == UniversalMarker::spec_always(),
    {
        UniversalMarker::always()
    }
}

impl UniversalMarker {
    /// The universal marker that is made of the two given markers.
    pub closed spec fn of(pair: MarkerPair) -> UniversalMarker {
        UniversalMarker { pep508_marker: pair.pep508, conflict_marker: pair.conflict }
    }

    /// The universal marker that is trivially true: both of its markers are.
    pub open spec fn spec_always() -> UniversalMarker {
        Self::of(MarkerPair { pep508: top(), conflict: top() })
    }

    /// The universal marker that is trivially false: both of its markers are.
    pub open spec fn spec_never() -> UniversalMarker {
        Self::of(MarkerPair { pep508: bottom(), conflict: bottom() })
    }

    /// This universal marker is a union of `a` and `b`: each of its markers
    /// is a disjunction of that marker of `a` and that of `b`. Which one, the
    /// engine decides; what is settled of it is what [`is_disjunction`] says.
    pub open spec fn is_union_of(self, a: UniversalMarker, b: UniversalMarker) -> bool {
        &&& is_disjunction(a@.pep508, b@.pep508, self@.pep508)
        &&& is_disjunction(a@.conflict, b@.conflict, self@.conflict)
    }

    /// This universal marker is an intersection of `a` and `b`: each of its
    /// markers is a conjunction of that marker of `a` and that of `b`. Which
    /// one, the engine decides; what is settled of it is what
    /// [`is_conjunction`] says.
    pub open spec fn is_intersection_of(self, a: UniversalMarker, b: UniversalMarker) -> bool {
        &&& is_conjunction(a@.pep508, b@.pep508, self@.pep508)
        &&& is_conjunction(a@.conflict, b@.conflict, self@.conflict)
    }

    /// This universal marker once the extra is known to be switched on: the
    /// PEP 508 marker stays, the conflict marker is what the engine makes of
    /// it under that assumption.
    pub open spec fn spec_assume_extra(self, extra: ExtraName) -> UniversalMarker {
        Self::of(
            MarkerPair {
                pep508: self@.pep508,
                conflict: marker_assuming(self@.conflict, seq![extra]),
            },
        )
    }

    /// Both markers are the false marker.
    pub open spec fn spec_is_never(self) -> bool {
        marker_is_false(self@.pep508) && marker_is_false(self@.conflict)
    }

    /// The engine knows both markers to be trivially true.
    pub open spec fn spec_is_true(self) -> bool {
        marker_is_true(self@.pep508) && marker_is_true(self@.conflict)
    }

    /// The engine knows one of the markers to be unsatisfiable.
    pub open spec fn spec_is_false(self) -> bool {
        marker_is_false(self@.pep508) || marker_is_false(self@.conflict)
    }

    /// Two markers that the engine finds disjoint without a look at its
    /// tables: one of them is false, or they are each other's negation.
    pub open spec fn plainly_disjoint(a: MarkerTree, b: MarkerTree) -> bool {
        marker_is_false(a) || marker_is_false(b) || marker_not(a) == b
    }

    /// Two markers that the engine finds to meet without a look at its
    /// tables: neither is false, and one of them is true or they are equal.
    pub open spec fn plainly_meeting(a: MarkerTree, b: MarkerTree) -> bool {
        !marker_is_false(a) && !marker_is_false(b) && (marker_is_true(a) || marker_is_true(b) || a
            == b)
    }

    /// The text that stands for this universal marker.
    pub open spec fn spec_to_string(self) -> Seq<char> {
        if self.spec_is_false() {
            "always false"@
        } else if marker_is_true(self@.pep508) {
            if marker_is_true(self@.conflict) {
                "always true"@
            } else {
                "(conflict marker: `"@ + marker_text(self@.conflict) + "`)"@
            }
        } else if marker_is_true(self@.conflict) {
            "`"@ + marker_text(self@.pep508) + "`"@
        } else {
            "`"@ + marker_text(self@.pep508) + "` (conflict marker: `"@ + marker_text(
                self@.conflict,
            ) + "`)"@
        }
    }

    /// Whether the engine evaluates both markers to true in `env` with `extras` switched on.
    pub open spec fn holds(self, env: MarkerEnvironment, extras: Seq<ExtraName>) -> bool {
        marker_holds(self@.pep508, env, extras) && marker_holds(self@.conflict, env, extras)
    }

    /// A universal marker is made of its two markers.
    pub broadcast proof fn lemma_of_view(pair: MarkerPair)
        ensures
            (#[trigger] Self::of(pair))@ == pair,
    {
    }

    /// Two universal markers with the same two markers are one.
    pub broadcast proof fn lemma_view_injective(a: UniversalMarker, b: UniversalMarker)
        ensures
            #[trigger] a@ == #[trigger] b@ ==> a == b,
    {
    }

    /// The universal marker that holds everywhere.
    pub fn always() -> (r: Self)
        ensures
            r == Self::spec_always(),
            r.spec_is_true(),
            !r.spec_is_false(),
    {
        UniversalMarker { pep508_marker: always(), conflict_marker: always() }
    }

    /// The universal marker that holds nowhere.
    pub fn never() -> (r: Self)
        ensures
            r == Self::spec_never(),
            r.spec_is_never(),
            !r.spec_is_true(),
    {
        UniversalMarker { pep508_marker: never(), conflict_marker: never() }
    }

    /// The universal marker with the two given markers.
    pub fn new(pep508_marker: MarkerTree, conflict_marker: MarkerTree) -> (r: Self)
        ensures
            r@ == (MarkerPair { pep508: pep508_marker, conflict: conflict_marker }),
    {
        UniversalMarker { pep508_marker, conflict_marker }
    }

    /// Widens this universal marker by the one given: each of its two
    /// markers becomes the engine's disjunction of itself and its counterpart
    /// in `other`.
    pub fn or(&mut self, other: UniversalMarker)
        ensures
            final(self).is_union_of(*old(self), other),
    {
        self.pep508_marker.or(other.pep508_marker);
        self.conflict_marker.or(other.conflict_marker);
    }

    /// Narrows this universal marker by the one given: each of its two
    /// markers becomes the engine's conjunction of itself and its counterpart
    /// in `other`.
    pub fn and(&mut self, other: UniversalMarker)
        ensures
            final(self).is_intersection_of(*old(self), other),
    {
        self.pep508_marker.and(other.pep508_marker);
        self.conflict_marker.and(other.conflict_marker);
    }

    /// Takes the given extra to be switched on, which may make the conflict
    /// marker simpler.
    pub fn assume_extra(&mut self, extra: &ExtraName)
        ensures
            *final(self) == old(self).spec_assume_extra(*extra),
            marker_is_true(old(self)@.conflict) || marker_is_false(old(self)@.conflict)
                ==> *final(self) == *old(self),
    {
        self.conflict_marker = self.conflict_marker.simplify_extras(core::slice::from_ref(extra));
    }

    /// Takes in what `conflicts` says: no two extras of one of its sets can be
    /// switched on at a time.
    ///
    /// The conflict marker becomes the engine's implication of itself by that
    /// fact, in which the engine can drop what the fact already settles: its
    /// disjunction with the exclusion that the engine builds of the pairs of
    /// extras. Where the conflicts hold no such pair the marker stays as it
    /// is.
    pub fn imbibe(&mut self, conflicts: &Conflicts)
        ensures
            final(self)@.pep508 == old(self)@.pep508,
            pairs_of(conflict_extras(*conflicts)).len() == 0 ==> *final(self) == *old(self),
            conflict_extras(*conflicts).len() != 0 ==> exists|
                conjunctions: Seq<MarkerTree>,
                unions: Seq<MarkerTree>,
                excluded: MarkerTree,
            | #[trigger]
                is_exclusion(pairs_of(conflict_extras(*conflicts)), conjunctions, unions, excluded)
                    && is_disjunction(excluded, old(self)@.conflict, final(self)@.conflict),
    {
        let groups = extras_of(conflicts);
        if groups.len() == 0 {
            return ;
        }
        let pairs = conflicting_pairs(&groups);
        let excluded = exclusion_marker(&pairs);
        self.imbibe_excluded(excluded);
    }

    /// Takes in that the extras are never switched on in a way in which
    /// `excluded` holds: the conflict marker becomes the engine's implication
    /// of itself by the negation of `excluded`, that is, its disjunction with
    /// `excluded`. Callers that imbibe the same conflicts into many markers
    /// build `excluded` once, with [`exclusion_marker`].
    pub fn imbibe_excluded(&mut self, excluded: MarkerTree)
        ensures
            final(self)@.pep508 == old(self)@.pep508,
            is_disjunction(excluded, old(self)@.conflict, final(self)@.conflict),
    {
        let mut marker = excluded.negate();
        marker.implies(self.conflict_marker);
        self.conflict_marker = marker;
    }

    /// Whether this universal marker is known to hold everywhere: the engine
    /// knows both markers to be trivially true.
    pub fn is_true(&self) -> (r: bool)
        ensures
            r == self.spec_is_true(),
    {
        self.pep508_marker.is_true() && self.conflict_marker.is_true()
    }

    /// Whether this universal marker is known to hold nowhere: the engine
    /// knows one of the markers to be unsatisfiable.
    pub fn is_false(&self) -> (r: bool)
        ensures
            r == self.spec_is_false(),
    {
        self.pep508_marker.is_false() || self.conflict_marker.is_false()
    }

    /// Whether this universal marker and the one given are known never to
    /// hold together: the engine finds the PEP 508 markers disjoint, or the
    /// conflict markers. The engine is asked about both pairs, and
    /// [`disjoint_if_either`] decides on its two answers. What the engine
    /// finds is settled where one marker of a pair is true or false, or the
    /// two are equal or complementary.
    pub fn is_disjoint(&self, other: &UniversalMarker) -> (r: bool)
        ensures
            Self::plainly_disjoint(self@.pep508, other@.pep508) || Self::plainly_disjoint(
                self@.conflict,
                other@.conflict,
            ) ==> r,
            Self::plainly_meeting(self@.pep508, other@.pep508) && Self::plainly_meeting(
                self@.conflict,
                other@.conflict,
            ) ==> !r,
    {
        let pep508 = self.pep508_marker.is_disjoint(other.pep508_marker);
        let conflict = self.conflict_marker.is_disjoint(other.conflict_marker);
        disjoint_if_either(pep508, conflict)
    }

    /// Whether this universal marker holds in the given environment with the
    /// given extras switched on: both of its markers do. One that is known
    /// to be always true holds, and one that is known to be always false
    /// does not, whatever the environment and the extras.
    pub fn evaluate(&self, env: &MarkerEnvironment, extras: &[ExtraName]) -> (r: bool)
        ensures
            r == self.holds(*env, extras@),
            self.spec_is_true() ==> r,
            self.spec_is_false() ==> !r,
    {
        self.pep508_marker.evaluate(env, extras) && self.conflict_marker.evaluate(env, extras)
    }

    /// Renders this universal marker: `always false` if the engine knows one
    /// of the markers to be unsatisfiable, and `always true` if it knows both
    /// to be trivially true; else the text of the PEP 508 marker unless that
    /// one is trivially true, and the text of the conflict marker in brackets
    /// unless that one is.
    pub fn to_string(&self) -> (r: String)
        ensures
            r@ == self.spec_to_string(),
    {
        if self.pep508_marker.is_false() || self.conflict_marker.is_false() {
            return String::from_str("always false");
        }
        match (self.pep508_marker.try_to_string(), self.conflict_marker.try_to_string()) {
            (None, None) => String::from_str("always true"),
            (Some(pep508), None) => {
                let mut text = String::from_str("`");
                text.append(pep508.as_str());
                text.append("`");
                text
            },
            (None, Some(conflict)) => {
                let mut text = String::from_str("(conflict marker: `");
                text.append(conflict.as_str());
                text.append("`)");
                text
            },
            (Some(pep508), Some(conflict)) => {
                let mut text = String::from_str("`");
                text.append(pep508.as_str());
                text.append("` (conflict marker: `");
                text.append(conflict.as_str());
                text.append("`)");
                text
            },
        }
    }

    /// The PEP 508 marker of this universal marker. On its own it says little:
    /// the universal marker holds only where the conflict marker holds too.
    pub fn pep508(&self) -> (r: &MarkerTree)
        ensures
            *r == self@.pep508,
    {
        &self.pep508_marker
    }

    /// The marker on conflicting extras of this universal marker.
    pub fn conflict(&self) -> (r: &MarkerTree)
        ensures
            *r == self@.conflict,
    {
        &self.conflict_marker
    }
}

/// Whether two universal markers never hold together, given what the engine
/// answered for their PEP 508 markers and for their conflict markers: they do
/// not if either pair of markers is disjoint.
pub fn disjoint_if_either(pep508: bool, conflict: bool) -> (r: bool)
    ensures
        r == (pep508 || conflict),
{
    pep508 || conflict
}

/// What ties a universal marker to its two markers.
pub broadcast group group_universal_marker {
    UniversalMarker::lemma_of_view,
    UniversalMarker::lemma_view_injective,
}

} // verus!
