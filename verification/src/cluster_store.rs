//! The fixed-capacity vectors of the hierarchical mixer.
//!
//! The members of a cluster and the clusters of a mixer are held in
//! `heapless::Vec`s. Nothing in this file is proved: each function below
//! makes one call into `heapless`, and its contract says, over
//! [`members_of`] or [`clusters_of`], what that call is documented to do.

use vstd::prelude::*;
use crate::cluster::CoherenceCluster;

verus! {

/// `heapless::Vec`: a vector with a fixed capacity, held in place.
#[verifier::external_type_specification]
#[verifier::external_body]
#[verifier::reject_recursive_types(T)]
pub struct ExHeaplessVec<T, const N: usize>(heapless::Vec<T, N>);

/// `Vec::clone`: nothing is stated of the copy.
pub assume_specification<T: Clone, const N: usize>[ <heapless::Vec<T, N> as Clone>::clone ](
    v: &heapless::Vec<T, N>,
) -> heapless::Vec<T, N>
;

/// What a vector of member indices holds, first to last.
pub uninterp spec fn members_of(v: heapless::Vec<usize, 128>) -> Seq<usize>;

/// What a vector of clusters holds, first to last.
pub uninterp spec fn clusters_of(v: heapless::Vec<CoherenceCluster, 32>) -> Seq<CoherenceCluster>;

/// `Vec::new`: an empty vector.
#[verifier::external_body]
pub(crate) fn members_new() -> (v: heapless::Vec<usize, 128>)
    ensures
        members_of(v) =~= Seq::empty(),
{
    heapless::Vec::new()
}

/// `Vec::push`: appends `index` if fewer than 128 indices are held, and
/// says whether it did; a full vector is left as it was.
#[verifier::external_body]
pub(crate) fn members_push(v: &mut heapless::Vec<usize, 128>, index: usize) -> (stored: bool)
    ensures
        stored == (members_of(*old(v)).len() < 128),
        stored ==> members_of(*final(v)) == members_of(*old(v)).push(index),
        !stored ==> members_of(*final(v)) == members_of(*old(v)),
{
    v.push(index).is_ok()
}

/// `Vec::as_slice`: the indices held, as a slice.
#[verifier::external_body]
pub(crate) fn members_slice(v: &heapless::Vec<usize, 128>) -> (s: &[usize])
    ensures
        s@ == members_of(*v),
        s@.len() <= 128,
{
    v.as_slice()
}

/// `Vec::new`: an empty vector.
#[verifier::external_body]
pub(crate) fn clusters_new() -> (v: heapless::Vec<CoherenceCluster, 32>)
    ensures
        clusters_of(v) =~= Seq::empty(),
{
    heapless::Vec::new()
}

/// `Vec::push`: appends `cluster` if fewer than 32 clusters are held, and
/// says whether it did; a full vector is left as it was.
#[verifier::external_body]
pub(crate) fn clusters_push(v: &mut heapless::Vec<CoherenceCluster, 32>, cluster: CoherenceCluster) -> (stored:
    bool)
    ensures
        stored == (clusters_of(*old(v)).len() < 32),
        stored ==> clusters_of(*final(v)) == clusters_of(*old(v)).push(cluster),
        !stored ==> clusters_of(*final(v)) == clusters_of(*old(v)),
{
    v.push(cluster).is_ok()
}

/// `Vec::as_slice`: the clusters held, as a slice.
#[verifier::external_body]
pub(crate) fn clusters_slice(v: &heapless::Vec<CoherenceCluster, 32>) -> (s: &[CoherenceCluster])
    ensures
        s@ == clusters_of(*v),
        s@.len() <= 32,
{
    v.as_slice()
}

/// `Vec::as_mut_slice`, indexed: a mutable borrow of the cluster at
/// `index`. Writing through the borrow replaces that cluster and no other.
#[verifier::external_body]
pub(crate) fn clusters_get_mut(v: &mut heapless::Vec<CoherenceCluster, 32>, index: usize) -> (cluster:
    &mut CoherenceCluster)
    requires
        index < clusters_of(*old(v)).len(),
    ensures
        *cluster == clusters_of(*old(v))[index as int],
        clusters_of(*final(v)) == clusters_of(*old(v)).update(index as int, *final(cluster)),
{
    &mut v.as_mut_slice()[index]
}

} // verus!
