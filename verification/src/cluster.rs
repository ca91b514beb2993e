//! One cluster of contexts and its mixing matrices.
//!
//! A cluster groups context indices and owns a square mixing matrix over
//! its members, raw and projected. Both matrices are held row by row with a
//! row stride of [`MAX_CLUSTER_SIZE`]; only the top-left block of the size
//! of the cluster counts.

use vstd::prelude::*;
use crate::cluster_store::{members_new, members_of, members_slice};
use crate::sinkhorn::{block_projected, entry, SinkhornKnopp};
use crate::units::ONE;

verus! {

/// The most member contexts of one cluster, and the row stride of its matrices.
pub const MAX_CLUSTER_SIZE: usize = 128;

/// The number of entries of each matrix of a cluster.
pub const CLUSTER_MATRIX_LEN: usize = 16384;

/// One cluster of the mixing hierarchy.
#[derive(Clone, Debug)]
pub struct CoherenceCluster {
    /// The identifier of the cluster.
    pub cluster_id: u16,
    /// The indices of the member contexts in the field's list of contexts.
    pub member_indices: heapless::Vec<usize, 128>,
    /// The raw mixing parameters within the cluster.
    pub intra_mix_raw: Vec<u32>,
    /// The projection of the raw parameters.
    pub intra_mix_projected: Vec<u32>,
    /// The number of members.
    pub size: usize,
    /// Whether the raw parameters have changed since they were last projected.
    pub projected_dirty: bool,
}

impl CoherenceCluster {
    /// The member indices, first to last.
    pub open spec fn members(&self) -> Seq<usize> {
        members_of(self.member_indices)
    }

    /// Whether the cluster is well formed: its size is the number of its
    /// members, and its matrices have the full padded length.
    pub open spec fn wf(&self) -> bool {
        &&& self.size == self.members().len()
        &&& self.size <= MAX_CLUSTER_SIZE
        &&& self.intra_mix_raw@.len() == CLUSTER_MATRIX_LEN
        &&& self.intra_mix_projected@.len() == CLUSTER_MATRIX_LEN
    }

    /// Decides whether the cluster is well formed.
    pub fn is_well_formed(&self) -> (ok: bool)
        ensures
            ok == self.wf(),
    {
        let held: usize = members_slice(&self.member_indices).len();
        self.size == held && self.intra_mix_raw.len() == CLUSTER_MATRIX_LEN
            && self.intra_mix_projected.len() == CLUSTER_MATRIX_LEN
    }

    /// An empty cluster with all-zero matrices.
    pub fn new(cluster_id: u16) -> (cluster: Self)
        ensures
            cluster.wf(),
            cluster.cluster_id == cluster_id,
            cluster.size == 0,
            cluster.members() == Seq::<usize>::empty(),
            !cluster.projected_dirty,
            forall|k: int| 0 <= k < CLUSTER_MATRIX_LEN ==> cluster.intra_mix_raw@[k] == 0,
            forall|k: int| 0 <= k < CLUSTER_MATRIX_LEN ==> cluster.intra_mix_projected@[k] == 0,
    {
        CoherenceCluster {
            cluster_id,
            member_indices: members_new(),
            intra_mix_raw: zeros(CLUSTER_MATRIX_LEN),
            intra_mix_projected: zeros(CLUSTER_MATRIX_LEN),
            size: 0,
            projected_dirty: false,
        }
    }
}

/// Whether the matrix of row stride `stride` is the identity on its first
/// `n` rows and columns and zero everywhere else.
pub open spec fn identity_block(m: Seq<u32>, stride: int, n: int) -> bool {
    forall|i: int, j: int|
        0 <= i < stride && 0 <= j < stride ==> #[trigger] entry(m, stride, i, j) == if i == j && i
            < n {
            ONE
        } else {
            0u32
        }
}

/// The entry of the padded matrix after raw parameters have been written
/// to its first `n` rows and columns: the parameter at row `i` and column
/// `j` of the compact `n` by `n` matrix `params`, where there is one, and
/// the entry that was there otherwise.
pub open spec fn written_entry(before: int, params: Seq<u32>, n: int, i: int, j: int) -> int {
    if i < n && j < n && i * n + j < params.len() {
        params[i * n + j] as int
    } else {
        before
    }
}

impl CoherenceCluster {
    /// Writes raw mixing parameters: `raw_params` is the compact matrix
    /// over the members of the cluster, row by row. The projection is
    /// marked as out of date.
    pub fn write_raw(&mut self, raw_params: &[u32])
        requires
            old(self).wf(),
        ensures
            final(self).wf(),
            forall|i: int, j: int|
                0 <= i < 128 && 0 <= j < 128 ==> #[trigger] entry(final(self).intra_mix_raw@, 128, i, j)
                    == written_entry(
                    entry(old(self).intra_mix_raw@, 128, i, j),
                    raw_params@,
                    old(self).size as int,
                    i,
                    j,
                ),
            final(self).projected_dirty,
            final(self).cluster_id == old(self).cluster_id,
            final(self).member_indices == old(self).member_indices,
            final(self).intra_mix_projected == old(self).intra_mix_projected,
            final(self).size == old(self).size,
    {
        let n: usize = self.size;
        let mut i: usize = 0;
        while i < n
            invariant
                i <= n <= 128,
                n == old(self).size,
                self.wf(),
                self.cluster_id == old(self).cluster_id,
                self.member_indices == old(self).member_indices,
                self.intra_mix_projected == old(self).intra_mix_projected,
                self.size == old(self).size,
                self.projected_dirty == old(self).projected_dirty,
                forall|a: int, b: int|
                    0 <= a < 128 && 0 <= b < 128 ==> #[trigger] entry(self.intra_mix_raw@, 128, a, b)
                        == if a < i {
                        written_entry(
                            entry(old(self).intra_mix_raw@, 128, a, b),
                            raw_params@,
                            n as int,
                            a,
                            b,
                        )
                    } else {
                        entry(old(self).intra_mix_raw@, 128, a, b)
                    },
            decreases n - i,
        {
            let mut j: usize = 0;
            while j < n
                invariant
                    i < n <= 128,
                    j <= n,
                    n == old(self).size,
                    self.wf(),
                    self.cluster_id == old(self).cluster_id,
                    self.member_indices == old(self).member_indices,
                    self.intra_mix_projected == old(self).intra_mix_projected,
                    self.size == old(self).size,
                    self.projected_dirty == old(self).projected_dirty,
                    forall|a: int, b: int|
                        0 <= a < 128 && 0 <= b < 128 ==> #[trigger] entry(
                            self.intra_mix_raw@,
                            128,
                            a,
                            b,
                        ) == if a < i || (a == i && b < j) {
                            written_entry(
                                entry(old(self).intra_mix_raw@, 128, a, b),
                                raw_params@,
                                n as int,
                                a,
                                b,
                            )
                        } else {
                            entry(old(self).intra_mix_raw@, 128, a, b)
                        },
                decreases n - j,
            {
                assert(i * n + j <= 128 * 128) by (nonlinear_arith)
                    requires
                        0 <= i < n <= 128,
                        0 <= j < n,
                ;
                let src: usize = i * n + j;
                let ghost held = self.intra_mix_raw@;
                if src < raw_params.len() {
                    self.intra_mix_raw[i * MAX_CLUSTER_SIZE + j] = raw_params[src];
                }
                proof {
                    assert forall|a: int, b: int|
                        0 <= a < 128 && 0 <= b < 128 implies #[trigger] entry(
                        self.intra_mix_raw@,
                        128,
                        a,
                        b,
                    ) == if a < i || (a == i && b < j + 1) {
                        written_entry(
                            entry(old(self).intra_mix_raw@, 128, a, b),
                            raw_params@,
                            n as int,
                            a,
                            b,
                        )
                    } else {
                        entry(old(self).intra_mix_raw@, 128, a, b)
                    } by {
                        assert(entry(held, 128, a, b) == if a < i || (a == i && b < j) {
                            written_entry(
                                entry(old(self).intra_mix_raw@, 128, a, b),
                                raw_params@,
                                n as int,
                                a,
                                b,
                            )
                        } else {
                            entry(old(self).intra_mix_raw@, 128, a, b)
                        });
                    }
                }
                j = j + 1;
            }
            i = i + 1;
        }
        self.projected_dirty = true;
    }

    /// Projects the raw parameters over the members of the cluster, pads
    /// the projection with the identity, and marks it as up to date. A
    /// cluster without members is left as it is.
    pub fn reproject(&mut self, projector: &SinkhornKnopp)
        requires
            old(self).wf(),
        ensures
            final(self).wf(),
            old(self).size == 0 ==> *final(self) == *old(self),
            old(self).size > 0 ==> !final(self).projected_dirty && block_projected(
                old(self).intra_mix_raw@,
                final(self).intra_mix_projected@,
                128,
                old(self).size as int,
                projector.tolerance as int,
                projector.max_iterations as int,
            ),
            final(self).cluster_id == old(self).cluster_id,
            final(self).member_indices == old(self).member_indices,
            final(self).intra_mix_raw == old(self).intra_mix_raw,
            final(self).size == old(self).size,
    {
        if self.size == 0 {
            return ;
        }
        projector.project_block(
            self.intra_mix_raw.as_slice(),
            MAX_CLUSTER_SIZE,
            self.size,
            self.intra_mix_projected.as_mut_slice(),
        );
        self.projected_dirty = false;
    }

    /// Sets both matrices to the identity over the members of the cluster
    /// and zero elsewhere, and marks the projection as up to date.
    pub fn reset_to_identity(&mut self)
        requires
            old(self).wf(),
        ensures
            final(self).wf(),
            identity_block(final(self).intra_mix_raw@, 128, old(self).size as int),
            identity_block(final(self).intra_mix_projected@, 128, old(self).size as int),
            !final(self).projected_dirty,
            final(self).cluster_id == old(self).cluster_id,
            final(self).member_indices == old(self).member_indices,
            final(self).size == old(self).size,
    {
        let mut k: usize = 0;
        while k < CLUSTER_MATRIX_LEN
            invariant
                k <= CLUSTER_MATRIX_LEN,
                self.wf(),
                self.cluster_id == old(self).cluster_id,
                self.member_indices == old(self).member_indices,
                self.size == old(self).size,
                forall|x: int| 0 <= x < k ==> self.intra_mix_raw@[x] == 0,
                forall|x: int| 0 <= x < k ==> self.intra_mix_projected@[x] == 0,
            decreases CLUSTER_MATRIX_LEN - k,
        {
            self.intra_mix_raw[k] = 0;
            self.intra_mix_projected[k] = 0;
            k = k + 1;
        }
        assert(identity_block(self.intra_mix_raw@, 128, 0));
        assert(identity_block(self.intra_mix_projected@, 128, 0));
        let n: usize = self.size;
        let mut i: usize = 0;
        while i < n
            invariant
                i <= n <= 128,
                n == old(self).size,
                self.wf(),
                self.cluster_id == old(self).cluster_id,
                self.member_indices == old(self).member_indices,
                self.size == old(self).size,
                identity_block(self.intra_mix_raw@, 128, i as int),
                identity_block(self.intra_mix_projected@, 128, i as int),
            decreases n - i,
        {
            let ghost raw_before = self.intra_mix_raw@;
            let ghost proj_before = self.intra_mix_projected@;
            self.intra_mix_raw[i * MAX_CLUSTER_SIZE + i] = ONE;
            self.intra_mix_projected[i * MAX_CLUSTER_SIZE + i] = ONE;
            proof {
                assert forall|a: int, b: int| 0 <= a < 128 && 0 <= b < 128 implies #[trigger] entry(
                    self.intra_mix_raw@,
                    128,
                    a,
                    b,
                ) == if a == b && a < i + 1 {
                    ONE
                } else {
                    0u32
                } by {
                    assert(entry(raw_before, 128, a, b) == if a == b && a < i {
                        ONE
                    } else {
                        0u32
                    });
                }
                assert forall|a: int, b: int| 0 <= a < 128 && 0 <= b < 128 implies #[trigger] entry(
                    self.intra_mix_projected@,
                    128,
                    a,
                    b,
                ) == if a == b && a < i + 1 {
                    ONE
                } else {
                    0u32
                } by {
                    assert(entry(proj_before, 128, a, b) == if a == b && a < i {
                        ONE
                    } else {
                        0u32
                    });
                }
            }
            i = i + 1;
        }
        self.projected_dirty = false;
    }
}

/// A vector of `n` zeros.
pub fn zeros(n: usize) -> (v: Vec<u32>)
    ensures
        v@.len() == n,
        forall|k: int| 0 <= k < n ==> v@[k] == 0,
{
    let mut v: Vec<u32> = Vec::new();
    let mut i: usize = 0;
    while i < n
        invariant
            i <= n,
            v@.len() == i,
            forall|k: int| 0 <= k < i ==> v@[k] == 0,
        decreases n - i,
    {
        v.push(0);
        i = i + 1;
    }
    v
}

} // verus!
