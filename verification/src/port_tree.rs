//! The port index: an immutable interval tree of the `intervaltree` crate
//! that maps half-open port intervals to rule positions.

use vstd::prelude::*;
use vstd::multiset::Multiset;
use intervaltree::IntervalTree;

verus! {

#[verifier::external_type_specification]
#[verifier::external_body]
#[verifier::reject_recursive_types(K)]
#[verifier::reject_recursive_types(V)]
pub struct ExIntervalTree<K, V>(IntervalTree<K, V>);

/// One stored interval: start, end (exclusive) and the value it carries.
pub type PortInterval = (u32, u32, usize);

/// The intervals that a tree holds, each as often as it was given.
pub uninterp spec fn tree_intervals(tree: IntervalTree<u32, usize>) -> Multiset<(u32, u32, usize)>;

/// Whether the half-open interval of `e` contains `point`.
pub open spec fn covers(e: (u32, u32, usize), point: u32) -> bool {
    e.0 <= point < e.1
}

/// `IntervalTree::from_iter`: the tree holds exactly the intervals handed in.
#[verifier::external_body]
pub(crate) fn tree_from_intervals(intervals: Vec<(u32, u32, usize)>) -> (tree: IntervalTree<u32, usize>)
    ensures
        tree_intervals(tree) == intervals@.to_multiset(),
{
    intervals.into_iter().map(|e| (e.0..e.1, e.2)).collect()
}

/// `IntervalTree::query_point`: every stored interval that contains `point`,
/// once for each time it is stored, in the order the tree yields them.
#[verifier::external_body]
pub(crate) fn tree_query_point(tree: &IntervalTree<u32, usize>, point: u32) -> (hits: Vec<(u32, u32, usize)>)
    ensures
        hits@.to_multiset() == tree_intervals(*tree).filter(|e: (u32, u32, usize)| covers(e, point)),
{
    tree.query_point(point).map(|e| (e.range.start, e.range.end, e.value)).collect()
}

} // verus!
