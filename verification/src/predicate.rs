//! The boundary to the marker engine.
//!
//! The engine keeps every marker as a decision diagram in a table that lives
//! as long as the process, and hands out small copyable handles to the
//! entries. Nothing of a diagram is visible to this library: it only combines
//! markers, asks the engine about them, and compares handles. This module
//! declares the engine's types, gives names to results of the engine, and
//! states the contract under which the rest of the library calls it. Nothing
//! in this module is proved; everything outside it is proved from what is
//! stated here.
//!
//! A name is given only to what the engine returns for the same operands in
//! every process. That leaves out its conjunction and what is built on it,
//! its disjunction, its implication and its test for disjointness: the engine
//! remembers conjunctions by their operands in a table that it also fills
//! while it works out which platforms exclude each other, so which handle a
//! conjunction yields can depend on which conjunctions came before. Of these
//! operations the contracts state the cases that the engine settles before it
//! looks into the table, and nothing else.

use uv_normalize::ExtraName;
use uv_pep508::{ExtraOperator, MarkerEnvironment, MarkerExpression, MarkerTree, MarkerValueExtra};
use vstd::prelude::*;

verus! {

/// `uv_pep508::MarkerTree`: a handle to a decision diagram of the engine.
/// Two handles are equal exactly if they refer to the same entry of the
/// engine's table.
#[verifier::external_type_specification]
#[verifier::external_body]
pub struct ExMarkerTree(MarkerTree);

/// `uv_pep508::MarkerEnvironment`: the marker values of one interpreter.
#[verifier::external_type_specification]
#[verifier::external_body]
pub struct ExMarkerEnvironment(MarkerEnvironment);

/// `uv_normalize::ExtraName`: the normalized name of an optional feature.
#[verifier::external_type_specification]
#[verifier::external_body]
pub struct ExExtraName(ExtraName);

/// The marker that `MarkerTree::negate` returns for `a`.
pub uninterp spec fn marker_not(a: MarkerTree) -> MarkerTree;

/// What `MarkerTree::is_true` returns for `m`.
pub uninterp spec fn marker_is_true(m: MarkerTree) -> bool;

/// What `MarkerTree::is_false` returns for `m`.
pub uninterp spec fn marker_is_false(m: MarkerTree) -> bool;

/// What `MarkerTree::evaluate` returns for `m` in the environment `env` with
/// the features `extras` switched on.
pub uninterp spec fn marker_holds(m: MarkerTree, env: MarkerEnvironment, extras: Seq<ExtraName>) -> bool;

/// The marker that `MarkerTree::simplify_extras` returns for `m` and `extras`.
pub uninterp spec fn marker_assuming(m: MarkerTree, extras: Seq<ExtraName>) -> MarkerTree;

/// The marker that `MarkerTree::expression` returns for the expression
/// `extra == '<extra>'`.
pub uninterp spec fn marker_extra(extra: ExtraName) -> MarkerTree;

/// The text that `MarkerTree::try_to_string` returns for a marker that has one.
pub uninterp spec fn marker_text(m: MarkerTree) -> Seq<char>;

/// The marker that is trivially true.
pub open spec fn top() -> MarkerTree {
    choose|m: MarkerTree| marker_is_true(m)
}

/// The marker that is trivially false.
pub open spec fn bottom() -> MarkerTree {
    choose|m: MarkerTree| marker_is_false(m)
}

/// What is settled of a conjunction `r` of `a` and `b` whatever the engine
/// remembers: the true marker is neutral, equal operands give the operand,
/// and a false operand or two complementary operands give the false marker.
pub open spec fn is_conjunction(a: MarkerTree, b: MarkerTree, r: MarkerTree) -> bool {
    &&& marker_is_true(a) ==> r == b
    &&& marker_is_true(b) ==> r == a
    &&& a == b ==> r == a
    &&& marker_is_false(a) || marker_is_false(b) ==> marker_is_false(r)
    &&& marker_not(a) == b ==> marker_is_false(r)
}

/// What is settled of a disjunction `r` of `a` and `b` whatever the engine
/// remembers: the false marker is neutral, equal operands give the operand,
/// and a true operand or two complementary operands give the true marker.
pub open spec fn is_disjunction(a: MarkerTree, b: MarkerTree, r: MarkerTree) -> bool {
    &&& marker_is_false(a) ==> r == b
    &&& marker_is_false(b) ==> r == a
    &&& a == b ==> r == a
    &&& marker_is_true(a) || marker_is_true(b) ==> marker_is_true(r)
    &&& marker_not(a) == b ==> marker_is_true(r)
}

/// What is settled of an implication `r` of `consequent` by `antecedent`: it
/// is a disjunction of the negated antecedent and the consequent.
pub open spec fn is_implication(antecedent: MarkerTree, consequent: MarkerTree, r: MarkerTree) -> bool {
    is_disjunction(marker_not(antecedent), consequent, r)
}

/// What is settled of the answer `r` to whether `a` and `b` are disjoint: a
/// false operand and complementary operands are disjoint; failing a false
/// operand, a true operand and equal operands are not.
pub open spec fn is_disjointness(a: MarkerTree, b: MarkerTree, r: bool) -> bool {
    &&& marker_is_false(a) || marker_is_false(b) ==> r
    &&& marker_not(a) == b ==> r
    &&& !marker_is_false(a) && !marker_is_false(b) && (marker_is_true(a) || marker_is_true(b) || a
        == b) ==> !r
}

/// `MarkerTree::or` replaces the receiver by the negated conjunction of the
/// two negated markers. Before the engine looks a conjunction up it returns
/// the other operand for a true one, the operand for equal ones, and the
/// false marker for a false operand or for complementary ones.
pub assume_specification[ MarkerTree::or ](m: &mut MarkerTree, tree: MarkerTree)
    ensures
        is_disjunction(*old(m), tree, *final(m)),
;

/// `MarkerTree::and` replaces the receiver by the conjunction of the two
/// markers. Before the engine looks it up it returns the other operand for a
/// true one, the operand for equal ones, and the false marker for a false
/// operand or for complementary ones.
pub assume_specification[ MarkerTree::and ](m: &mut MarkerTree, tree: MarkerTree)
    ensures
        is_conjunction(*old(m), tree, *final(m)),
;

/// `MarkerTree::negate` returns the handle with its complement bit flipped:
/// to negate twice gives the handle back, and the true and the false marker
/// are each other's negation.
pub assume_specification[ MarkerTree::negate ](m: MarkerTree) -> (r: MarkerTree)
    ensures
        r == marker_not(m),
        marker_not(r) == m,
        marker_is_true(r) == marker_is_false(m),
        marker_is_false(r) == marker_is_true(m),
;

/// `MarkerTree::implies` negates the receiver and then calls `or` on it with
/// the consequent.
pub assume_specification[ MarkerTree::implies ](m: &mut MarkerTree, consequent: MarkerTree)
    ensures
        is_implication(*old(m), consequent, *final(m)),
;

/// `MarkerTree::is_true` depends on its argument alone.
pub assume_specification[ MarkerTree::is_true ](m: MarkerTree) -> (r: bool)
    ensures
        r == marker_is_true(m),
;

/// `MarkerTree::is_false` depends on its argument alone.
pub assume_specification[ MarkerTree::is_false ](m: MarkerTree) -> (r: bool)
    ensures
        r == marker_is_false(m),
;

/// `MarkerTree::is_disjoint` answers at once for a false operand, then for a
/// true one, for equal ones and for complementary ones; for other operands
/// it asks the engine's tables.
pub assume_specification[ MarkerTree::is_disjoint ](m: MarkerTree, other: MarkerTree) -> (r: bool)
    ensures
        is_disjointness(m, other, r),
;

/// `MarkerTree::evaluate` depends on the marker, the environment and the list
/// of features alone. For the true marker it answers `true` and for the false
/// marker `false`, before it looks at either of the other two.
pub assume_specification[ MarkerTree::evaluate ](
    m: MarkerTree,
    env: &MarkerEnvironment,
    extras: &[ExtraName],
) -> (r: bool)
    ensures
        r == marker_holds(m, *env, extras@),
        marker_is_true(m) ==> r,
        marker_is_false(m) ==> !r,
;

/// `MarkerTree::simplify_extras` returns a marker that depends on the marker
/// and the list of features alone. The true and the false marker come back
/// as they are.
pub assume_specification[ MarkerTree::simplify_extras ](m: MarkerTree, extras: &[ExtraName]) -> (r: MarkerTree)
    ensures
        r == marker_assuming(m, extras@),
        marker_is_true(m) || marker_is_false(m) ==> r == m,
;

/// `MarkerTree::try_to_string` returns nothing exactly for the marker that
/// `is_true` accepts, and otherwise a text that depends on the marker alone.
pub assume_specification[ MarkerTree::try_to_string ](m: MarkerTree) -> (r: Option<String>)
    ensures
        r is None <==> marker_is_true(m),
        r matches Some(text) ==> text@ == marker_text(m),
;

/// `core::slice::from_ref` turns a reference into a slice of that one element.
pub assume_specification<T>[ core::slice::from_ref::<T> ](s: &T) -> (r: &[T])
    ensures
        r@ == seq![*s],
;

/// The constant `MarkerTree::TRUE`. `is_true` accepts it, and it accepts no
/// other marker: it compares the handle with this constant. The constant is
/// not `MarkerTree::FALSE`.
#[verifier::external_body]
pub(crate) fn true_marker() -> (m: MarkerTree)
    ensures
        marker_is_true(m),
        !marker_is_false(m),
        forall|other: MarkerTree| marker_is_true(other) ==> other == m,
{
    MarkerTree::TRUE
}

/// The constant `MarkerTree::FALSE`. `is_false` accepts it, and it accepts no
/// other marker: it compares the handle with this constant. The constant is
/// not `MarkerTree::TRUE`.
#[verifier::external_body]
pub(crate) fn false_marker() -> (m: MarkerTree)
    ensures
        marker_is_false(m),
        !marker_is_true(m),
        forall|other: MarkerTree| marker_is_false(other) ==> other == m,
{
    MarkerTree::FALSE
}

/// `MarkerTree::expression` on the expression `extra == '<extra>'`, which
/// returns a marker that depends on the name alone.
#[verifier::external_body]
pub(crate) fn extra_marker(extra: &ExtraName) -> (m: MarkerTree)
    ensures
        m == marker_extra(*extra),
{
    MarkerTree::expression(MarkerExpression::Extra {
        operator: ExtraOperator::Equal,
        name: MarkerValueExtra::Extra(extra.clone()),
    })
}

/// `==` on `MarkerTree`, which compares the two handles.
#[verifier::external_body]
pub(crate) fn same_marker(a: MarkerTree, b: MarkerTree) -> (r: bool)
    ensures
        r == (a == b),
{
    a == b
}

/// `==` on `ExtraName`, which compares the two normalized names.
#[verifier::external_body]
pub(crate) fn same_extra(a: &ExtraName, b: &ExtraName) -> (r: bool)
    ensures
        r == (*a == *b),
{
    a == b
}

/// `clone` on `ExtraName`, which copies the name.
#[verifier::external_body]
pub(crate) fn clone_extra(a: &ExtraName) -> (r: ExtraName)
    ensures
        r == *a,
{
    a.clone()
}

/// The marker that is trivially true.
pub fn always() -> (m: MarkerTree)
    ensures
        m == top(),
        marker_is_true(m),
        !marker_is_false(m),
        forall|other: MarkerTree| marker_is_true(other) ==> other == m,
{
    true_marker()
}

/// The marker that is trivially false.
pub fn never() -> (m: MarkerTree)
    ensures
        m == bottom(),
        marker_is_false(m),
        !marker_is_true(m),
        forall|other: MarkerTree| marker_is_false(other) ==> other == m,
{
    false_marker()
}

} // verus!
