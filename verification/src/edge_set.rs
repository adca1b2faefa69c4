//! The set of edges that a sort still has to take away, kept in a
//! `hashbrown::HashSet`.
//!
//! Nothing in this file is proved: the contracts below restate what the
//! documentation of `hashbrown` promises of each method, over the name
//! [`edge_set_items`] for what the set holds.

use vstd::prelude::*;

verus! {

/// A hash set of edges between node numbers. The verifier does not look
/// inside; what the set holds is [`edge_set_items`].
#[verifier::external_body]
pub struct EdgeSet {
    inner: hashbrown::HashSet<(usize, usize)>,
}

/// The edges that an [`EdgeSet`] holds.
pub uninterp spec fn edge_set_items(set: EdgeSet) -> Set<(usize, usize)>;

/// `hashbrown::HashSet::new`: the new set holds nothing.
#[verifier::external_body]
pub(crate) fn edge_set_new() -> (set: EdgeSet)
    ensures
        edge_set_items(set) == Set::<(usize, usize)>::empty(),
{
    EdgeSet { inner: hashbrown::HashSet::new() }
}

/// `hashbrown::HashSet::insert`: afterwards the set holds `edge` beside what
/// it held; the result tells whether `edge` was new to it.
#[verifier::external_body]
pub(crate) fn edge_set_insert(set: &mut EdgeSet, edge: (usize, usize)) -> (added: bool)
    ensures
        edge_set_items(*final(set)) == edge_set_items(*old(set)).insert(edge),
        added == !edge_set_items(*old(set)).contains(edge),
{
    set.inner.insert(edge)
}

/// `hashbrown::HashSet::remove`: afterwards the set holds what it held but
/// for `edge`; the result tells whether `edge` was in it.
#[verifier::external_body]
pub(crate) fn edge_set_remove(set: &mut EdgeSet, edge: &(usize, usize)) -> (removed: bool)
    ensures
        edge_set_items(*final(set)) == edge_set_items(*old(set)).remove(*edge),
        removed == edge_set_items(*old(set)).contains(*edge),
{
    set.inner.remove(edge)
}

/// `hashbrown::HashSet::contains`: whether the set holds `edge`.
#[verifier::external_body]
pub(crate) fn edge_set_contains(set: &EdgeSet, edge: &(usize, usize)) -> (found: bool)
    ensures
        found == edge_set_items(*set).contains(*edge),
{
    set.inner.contains(edge)
}

/// `hashbrown::HashSet::is_empty`: whether the set holds nothing.
#[verifier::external_body]
pub(crate) fn edge_set_is_empty(set: &EdgeSet) -> (empty: bool)
    ensures
        empty == (forall|edge: (usize, usize)| !edge_set_items(*set).contains(edge)),
{
    set.inner.is_empty()
}

} // verus!
