//! Hierarchical trust mixing over clusters of contexts.
//!
//! The contexts of a large field are parted into clusters. Trust is mixed
//! within each cluster by the cluster's own matrix, the cluster means are
//! mixed by one matrix between the clusters, and the change of each mean is
//! handed down to the members of its cluster in proportion to their
//! interaction counts. When the clusters change, the output is blended from
//! the old structure to the new over a number of ticks.

use vstd::prelude::*;
use crate::cluster::{
    identity_block, written_entry, zeros, CoherenceCluster, CLUSTER_MATRIX_LEN, MAX_CLUSTER_SIZE,
};
use crate::cluster_store::{
    clusters_get_mut, clusters_new, clusters_of, clusters_push, clusters_slice, members_push,
    members_slice,
};
use crate::mixing::{alpha_of, blend_alpha, HierarchicalMixerConfig, MAX_CLUSTERS};
use crate::sinkhorn::{block_projected, entry, SinkhornKnopp};
use crate::units::{clamp_unit, ONE};

verus! {

/// The hierarchical mixer.
#[derive(Clone, Debug)]
pub struct HierarchicalMixer {
    /// The clusters in use.
    pub clusters: heapless::Vec<CoherenceCluster, 32>,
    /// The raw mixing parameters between the clusters, at a row stride of 32.
    pub inter_mix_raw: [u32; 1024],
    /// The projection of the raw parameters between the clusters.
    pub inter_mix_projected: [u32; 1024],
    /// The number of clusters in use.
    pub num_clusters: usize,
    /// The configuration.
    pub config: HierarchicalMixerConfig,
    /// Whether a transition between two cluster structures is under way.
    pub in_transition: bool,
    /// The ticks since the transition began.
    pub transition_tick: usize,
    /// The clusters before the transition.
    pub old_clusters: Option<heapless::Vec<CoherenceCluster, 32>>,
    /// The projected matrix between the clusters before the transition.
    pub old_inter_mix: Option<[u32; 1024]>,
}

impl HierarchicalMixer {
    /// The clusters in use, first to last.
    pub open spec fn cluster_list(&self) -> Seq<CoherenceCluster> {
        clusters_of(self.clusters)
    }

    /// The clusters before the transition, if any are kept.
    pub open spec fn old_cluster_list(&self) -> Seq<CoherenceCluster> {
        match self.old_clusters {
            Some(old) => clusters_of(old),
            None => Seq::empty(),
        }
    }

    /// Whether the mixer is well formed: it counts its clusters rightly,
    /// and every cluster, in use or kept, is well formed.
    pub open spec fn wf(&self) -> bool {
        &&& self.num_clusters == self.cluster_list().len()
        &&& self.num_clusters <= MAX_CLUSTERS
        &&& self.old_cluster_list().len() <= MAX_CLUSTERS
        &&& forall|c: int| 0 <= c < self.cluster_list().len() ==> (#[trigger] self.cluster_list()[c]).wf()
        &&& forall|c: int|
            0 <= c < self.old_cluster_list().len() ==> (#[trigger] self.old_cluster_list()[c]).wf()
    }

    /// Decides whether the mixer is well formed.
    pub fn is_well_formed(&self) -> (ok: bool)
        ensures
            ok == self.wf(),
    {
        let clusters: &[CoherenceCluster] = clusters_slice(&self.clusters);
        let counted: bool = self.num_clusters == clusters.len();
        let sound: bool = all_well_formed(clusters);
        let kept_sound: bool = match &self.old_clusters {
            Some(kept) => all_well_formed(clusters_slice(kept)),
            None => true,
        };
        counted && sound && kept_sound
    }

    /// A mixer with no clusters, not in transition, whose matrices between
    /// the clusters are the identity.
    pub fn new(config: HierarchicalMixerConfig) -> (mixer: Self)
        ensures
            mixer.wf(),
            mixer.cluster_list() == Seq::<CoherenceCluster>::empty(),
            mixer.num_clusters == 0,
            mixer.config == config,
            !mixer.in_transition,
            mixer.transition_tick == 0,
            mixer.old_clusters is None,
            mixer.old_inter_mix is None,
            identity_block(mixer.inter_mix_raw@, 32, 32),
            identity_block(mixer.inter_mix_projected@, 32, 32),
    {
        let mut inter_raw: [u32; 1024] = [0u32;1024];
        let mut inter_proj: [u32; 1024] = [0u32;1024];
        let mut i: usize = 0;
        while i < MAX_CLUSTERS
            invariant
                i <= MAX_CLUSTERS,
                identity_block(inter_raw@, 32, i as int),
                identity_block(inter_proj@, 32, i as int),
            decreases MAX_CLUSTERS - i,
        {
            let ghost raw_before = inter_raw@;
            let ghost proj_before = inter_proj@;
            inter_raw[i * MAX_CLUSTERS + i] = ONE;
            inter_proj[i * MAX_CLUSTERS + i] = ONE;
            proof {
                assert forall|a: int, b: int| 0 <= a < 32 && 0 <= b < 32 implies #[trigger] entry(
                    inter_raw@,
                    32,
                    a,
                    b,
                ) == if a == b && a < i + 1 {
                    ONE
                } else {
                    0u32
                } by {
                    assert(entry(raw_before, 32, a, b) == if a == b && a < i {
                        ONE
                    } else {
                        0u32
                    });
                }
                assert forall|a: int, b: int| 0 <= a < 32 && 0 <= b < 32 implies #[trigger] entry(
                    inter_proj@,
                    32,
                    a,
                    b,
                ) == if a == b && a < i + 1 {
                    ONE
                } else {
                    0u32
                } by {
                    assert(entry(proj_before, 32, a, b) == if a == b && a < i {
                        ONE
                    } else {
                        0u32
                    });
                }
            }
            i = i + 1;
        }
        HierarchicalMixer {
            clusters: clusters_new(),
            inter_mix_raw: inter_raw,
            inter_mix_projected: inter_proj,
            num_clusters: 0,
            config,
            in_transition: false,
            transition_tick: 0,
            old_clusters: None,
            old_inter_mix: None,
        }
    }

    /// Advances the transition by one tick and says whether it is still
    /// under way. Once the blend ticks are reached, the transition is over
    /// and the old structure is dropped.
    pub fn tick_transition(&mut self) -> (active: bool)
        ensures
            !old(self).in_transition ==> !active && *final(self) == *old(self),
            old(self).in_transition ==> {
                let ticked = if old(self).transition_tick < usize::MAX {
                    (old(self).transition_tick + 1) as usize
                } else {
                    usize::MAX
                };
                &&& active == (ticked < old(self).config.transition_blend_ticks)
                &&& final(self).in_transition == active
                &&& final(self).transition_tick == if active {
                    ticked
                } else {
                    0
                }
                &&& active ==> final(self).old_clusters == old(self).old_clusters && final(self).old_inter_mix == old(self).old_inter_mix
                &&& !active ==> final(self).old_clusters is None && final(self).old_inter_mix is None
                &&& final(self).clusters == old(self).clusters
                &&& final(self).inter_mix_raw == old(self).inter_mix_raw
                &&& final(self).inter_mix_projected == old(self).inter_mix_projected
                &&& final(self).num_clusters == old(self).num_clusters
                &&& final(self).config == old(self).config
            },
    {
        if !self.in_transition {
            return false;
        }
        self.transition_tick = self.transition_tick.saturating_add(1);
        if self.transition_tick >= self.config.transition_blend_ticks {
            self.in_transition = false;
            self.old_clusters = None;
            self.old_inter_mix = None;
            self.transition_tick = 0;
            false
        } else {
            true
        }
    }

    /// Writes raw mixing parameters between the clusters: `raw_params` is
    /// the compact matrix over the clusters in use, row by row.
    pub fn update_inter_params(&mut self, raw_params: &[u32])
        ensures
            forall|i: int, j: int|
                0 <= i < 32 && 0 <= j < 32 ==> #[trigger] entry(final(self).inter_mix_raw@, 32, i, j)
                    == written_entry(
                    entry(old(self).inter_mix_raw@, 32, i, j),
                    raw_params@,
                    if old(self).num_clusters < 32 {
                        old(self).num_clusters as int
                    } else {
                        32
                    },
                    i,
                    j,
                ),
            final(self).clusters == old(self).clusters,
            final(self).inter_mix_projected == old(self).inter_mix_projected,
            final(self).num_clusters == old(self).num_clusters,
            final(self).config == old(self).config,
            final(self).in_transition == old(self).in_transition,
            final(self).transition_tick == old(self).transition_tick,
            final(self).old_clusters == old(self).old_clusters,
            final(self).old_inter_mix == old(self).old_inter_mix,
    {
        let k: usize = if self.num_clusters < MAX_CLUSTERS {
            self.num_clusters
        } else {
            MAX_CLUSTERS
        };
        let mut i: usize = 0;
        while i < k
            invariant
                i <= k <= 32,
                self.clusters == old(self).clusters,
                self.inter_mix_projected == old(self).inter_mix_projected,
                self.num_clusters == old(self).num_clusters,
                self.config == old(self).config,
                self.in_transition == old(self).in_transition,
                self.transition_tick == old(self).transition_tick,
                self.old_clusters == old(self).old_clusters,
                self.old_inter_mix == old(self).old_inter_mix,
                forall|a: int, b: int|
                    0 <= a < 32 && 0 <= b < 32 ==> #[trigger] entry(self.inter_mix_raw@, 32, a, b)
                        == if a < i {
                        written_entry(
                            entry(old(self).inter_mix_raw@, 32, a, b),
                            raw_params@,
                            k as int,
                            a,
                            b,
                        )
                    } else {
                        entry(old(self).inter_mix_raw@, 32, a, b)
                    },
            decreases k - i,
        {
            let mut j: usize = 0;
            while j < k
                invariant
                    i < k <= 32,
                    j <= k,
                    self.clusters == old(self).clusters,
                    self.inter_mix_projected == old(self).inter_mix_projected,
                    self.num_clusters == old(self).num_clusters,
                    self.config == old(self).config,
                    self.in_transition == old(self).in_transition,
                    self.transition_tick == old(self).transition_tick,
                    self.old_clusters == old(self).old_clusters,
                    self.old_inter_mix == old(self).old_inter_mix,
                    forall|a: int, b: int|
                        0 <= a < 32 && 0 <= b < 32 ==> #[trigger] entry(
                            self.inter_mix_raw@,
                            32,
                            a,
                            b,
                        ) == if a < i || (a == i && b < j) {
                            written_entry(
                                entry(old(self).inter_mix_raw@, 32, a, b),
                                raw_params@,
                                k as int,
                                a,
                                b,
                            )
                        } else {
                            entry(old(self).inter_mix_raw@, 32, a, b)
                        },
                decreases k - j,
            {
                assert(i * k + j <= 32 * 32) by (nonlinear_arith)
                    requires
                        0 <= i < k <= 32,
                        0 <= j < k,
                ;
                let src: usize = i * k + j;
                let ghost held = self.inter_mix_raw@;
                if src < raw_params.len() {
                    self.inter_mix_raw[i * MAX_CLUSTERS + j] = raw_params[src];
                }
                proof {
                    assert forall|a: int, b: int| 0 <= a < 32 && 0 <= b < 32 implies #[trigger] entry(
                        self.inter_mix_raw@,
                        32,
                        a,
                        b,
                    ) == if a < i || (a == i && b < j + 1) {
                        written_entry(
                            entry(old(self).inter_mix_raw@, 32, a, b),
                            raw_params@,
                            k as int,
                            a,
                            b,
                        )
                    } else {
                        entry(old(self).inter_mix_raw@, 32, a, b)
                    } by {
                        assert(entry(held, 32, a, b) == if a < i || (a == i && b < j) {
                            written_entry(
                                entry(old(self).inter_mix_raw@, 32, a, b),
                                raw_params@,
                                k as int,
                                a,
                                b,
                            )
                        } else {
                            entry(old(self).inter_mix_raw@, 32, a, b)
                        });
                    }
                }
                j = j + 1;
            }
            i = i + 1;
        }
    }
}

/// The members that an assignment gives the cluster `ci` among the first
/// `upto` contexts: the indices assigned to it, in order, the first 128 of them.
pub open spec fn assigned(assignments: Seq<u16>, ci: int, upto: int) -> Seq<usize>
    decreases upto,
{
    if upto <= 0 {
        Seq::empty()
    } else {
        let before = assigned(assignments, ci, upto - 1);
        if assignments[upto - 1] == ci && before.len() < 128 {
            before.push((upto - 1) as usize)
        } else {
            before
        }
    }
}

/// Whether `c` is the first cluster of the list with the identifier `id`.
pub open spec fn is_first_with_id(list: Seq<CoherenceCluster>, id: u16, c: int) -> bool {
    &&& 0 <= c < list.len()
    &&& list[c].cluster_id == id
    &&& forall|d: int| 0 <= d < c ==> (#[trigger] list[d]).cluster_id != id
}

impl HierarchicalMixer {
    /// Writes raw mixing parameters within the first cluster that has the
    /// identifier `cluster_id`; without such a cluster nothing changes.
    pub fn update_intra_params(&mut self, cluster_id: u16, raw_params: &[u32])
        requires
            old(self).wf(),
        ensures
            final(self).wf(),
            final(self).cluster_list().len() == old(self).cluster_list().len(),
            forall|c: int|
                0 <= c < old(self).cluster_list().len() && !is_first_with_id(
                    old(self).cluster_list(),
                    cluster_id,
                    c,
                ) ==> #[trigger] final(self).cluster_list()[c] == old(self).cluster_list()[c],
            forall|c: int|
                is_first_with_id(old(self).cluster_list(), cluster_id, c) ==> {
                    let before = old(self).cluster_list()[c];
                    let after = #[trigger] final(self).cluster_list()[c];
                    &&& after.projected_dirty
                    &&& after.cluster_id == before.cluster_id
                    &&& after.member_indices == before.member_indices
                    &&& after.intra_mix_projected == before.intra_mix_projected
                    &&& after.size == before.size
                    &&& forall|i: int, j: int|
                        0 <= i < 128 && 0 <= j < 128 ==> #[trigger] entry(
                            after.intra_mix_raw@,
                            128,
                            i,
                            j,
                        ) == written_entry(
                            entry(before.intra_mix_raw@, 128, i, j),
                            raw_params@,
                            before.size as int,
                            i,
                            j,
                        )
                },
            final(self).inter_mix_raw == old(self).inter_mix_raw,
            final(self).inter_mix_projected == old(self).inter_mix_projected,
            final(self).num_clusters == old(self).num_clusters,
            final(self).config == old(self).config,
            final(self).in_transition == old(self).in_transition,
            final(self).transition_tick == old(self).transition_tick,
            final(self).old_clusters == old(self).old_clusters,
            final(self).old_inter_mix == old(self).old_inter_mix,
    {
        let count: usize = clusters_slice(&self.clusters).len();
        let mut c: usize = 0;
        while c < count
            invariant
                c <= count == old(self).cluster_list().len(),
                old(self).wf(),
                *self == *old(self),
                forall|d: int| 0 <= d < c ==> (#[trigger] self.cluster_list()[d]).cluster_id != cluster_id,
            decreases count - c,
        {
            if clusters_slice(&self.clusters)[c].cluster_id == cluster_id {
                assert(is_first_with_id(old(self).cluster_list(), cluster_id, c as int));
                assert(old(self).cluster_list()[c as int].wf());
                let cluster: &mut CoherenceCluster = clusters_get_mut(&mut self.clusters, c);
                cluster.write_raw(raw_params);
                proof {
                    assert forall|d: int| 0 <= d < self.cluster_list().len() implies (#[trigger] self.cluster_list()[d]).wf() by {
                        if d != c {
                            assert(old(self).cluster_list()[d].wf());
                        }
                    }
                    assert forall|d: int|
                        0 <= d < old(self).cluster_list().len() && !is_first_with_id(
                            old(self).cluster_list(),
                            cluster_id,
                            d,
                        ) implies #[trigger] self.cluster_list()[d] == old(self).cluster_list()[d] by {
                        assert(d != c);
                    }
                    assert forall|d: int| is_first_with_id(old(self).cluster_list(), cluster_id, d) implies d
                        == c by {
                        if d < c {
                            assert(old(self).cluster_list()[d].cluster_id != cluster_id);
                        }
                        if c < d {
                            assert(old(self).cluster_list()[c as int].cluster_id != cluster_id);
                        }
                    }
                }
                return ;
            }
            c = c + 1;
        }
        proof {
            assert forall|d: int| is_first_with_id(old(self).cluster_list(), cluster_id, d) implies false by {
                assert(self.cluster_list()[d].cluster_id != cluster_id);
            }
        }
    }

    /// Installs a new cluster structure: `assignments[i]` is the cluster
    /// of the context `i`, and `num_clusters` the number of clusters, of
    /// which at most 32 are kept.
    ///
    /// Every matrix starts as the identity. If the mixer had clusters, they
    /// are kept aside with the projected matrix between them, and a
    /// transition begins.
    pub fn update_clusters(&mut self, assignments: &[u16], num_clusters: usize)
        requires
            old(self).wf(),
        ensures
            final(self).wf(),
            final(self).num_clusters == if num_clusters < 32 {
                num_clusters
            } else {
                32
            },
            forall|c: int|
                0 <= c < final(self).num_clusters ==> {
                    let cluster = #[trigger] final(self).cluster_list()[c];
                    &&& cluster.cluster_id == c
                    &&& cluster.members() == assigned(assignments@, c, assignments@.len() as int)
                    &&& cluster.size == cluster.members().len()
                    &&& !cluster.projected_dirty
                    &&& identity_block(cluster.intra_mix_raw@, 128, cluster.size as int)
                    &&& identity_block(cluster.intra_mix_projected@, 128, cluster.size as int)
                },
            identity_block(final(self).inter_mix_raw@, 32, final(self).num_clusters as int),
            identity_block(final(self).inter_mix_projected@, 32, final(self).num_clusters as int),
            final(self).config == old(self).config,
            old(self).cluster_list().len() > 0 ==> final(self).in_transition && final(self).transition_tick == 0 && final(self).old_cluster_list() == old(self).cluster_list()
                && final(self).old_inter_mix == Some(old(self).inter_mix_projected),
            old(self).cluster_list().len() == 0 ==> final(self).in_transition == old(self).in_transition && final(self).transition_tick == old(self).transition_tick && final(self).old_clusters == old(self).old_clusters && final(self).old_inter_mix == old(self).old_inter_mix,
    {
        let had_clusters: bool = clusters_slice(&self.clusters).len() > 0;
        let mut previous: heapless::Vec<CoherenceCluster, 32> = clusters_new();
        core::mem::swap(&mut self.clusters, &mut previous);
        if had_clusters {
            self.in_transition = true;
            self.transition_tick = 0;
            self.old_clusters = Some(previous);
            self.old_inter_mix = Some(self.inter_mix_projected);
        }
        let k: usize = if num_clusters < MAX_CLUSTERS {
            num_clusters
        } else {
            MAX_CLUSTERS
        };
        self.num_clusters = k;
        let mut ci: usize = 0;
        while ci < k
            invariant
                ci <= k <= 32,
                self.num_clusters == k,
                self.cluster_list().len() == ci,
                self.old_cluster_list().len() <= 32,
                forall|c: int|
                    0 <= c < self.old_cluster_list().len() ==> (#[trigger] self.old_cluster_list()[c]).wf(),
                forall|c: int|
                    0 <= c < ci ==> {
                        let cluster = #[trigger] self.cluster_list()[c];
                        &&& cluster.wf()
                        &&& cluster.cluster_id == c
                        &&& cluster.members() == Seq::<usize>::empty()
                        &&& cluster.size == 0
                    },
                self.config == old(self).config,
                self.in_transition == (if had_clusters {
                    true
                } else {
                    old(self).in_transition
                }),
                self.transition_tick == (if had_clusters {
                    0
                } else {
                    old(self).transition_tick
                }),
                had_clusters ==> self.old_cluster_list() == old(self).cluster_list() && self.old_inter_mix
                    == Some(old(self).inter_mix_projected),
                !had_clusters ==> self.old_clusters == old(self).old_clusters && self.old_inter_mix == old(self).old_inter_mix,
            decreases k - ci,
        {
            let cluster: CoherenceCluster = CoherenceCluster::new(ci as u16);
            clusters_push(&mut self.clusters, cluster);
            ci = ci + 1;
        }
        let mut idx: usize = 0;
        while idx < assignments.len()
            invariant
                idx <= assignments@.len(),
                k <= 32,
                self.num_clusters == k,
                self.cluster_list().len() == k,
                self.old_cluster_list().len() <= 32,
                forall|c: int|
                    0 <= c < self.old_cluster_list().len() ==> (#[trigger] self.old_cluster_list()[c]).wf(),
                forall|c: int|
                    0 <= c < k ==> {
                        let cluster = #[trigger] self.cluster_list()[c];
                        &&& cluster.wf()
                        &&& cluster.cluster_id == c
                        &&& cluster.members() == assigned(assignments@, c, idx as int)
                    },
                self.config == old(self).config,
                self.in_transition == (if had_clusters {
                    true
                } else {
                    old(self).in_transition
                }),
                self.transition_tick == (if had_clusters {
                    0
                } else {
                    old(self).transition_tick
                }),
                had_clusters ==> self.old_cluster_list() == old(self).cluster_list() && self.old_inter_mix
                    == Some(old(self).inter_mix_projected),
                !had_clusters ==> self.old_clusters == old(self).old_clusters && self.old_inter_mix == old(self).old_inter_mix,
            decreases assignments@.len() - idx,
        {
            let target: usize = assignments[idx] as usize;
            let ghost held = self.cluster_list();
            if target < k {
                let cluster: &mut CoherenceCluster = clusters_get_mut(&mut self.clusters, target);
                members_push(&mut cluster.member_indices, idx);
                cluster.size = members_slice(&cluster.member_indices).len();
            }
            proof {
                assert forall|c: int| 0 <= c < k implies {
                    let cluster = #[trigger] self.cluster_list()[c];
                    &&& cluster.wf()
                    &&& cluster.cluster_id == c
                    &&& cluster.members() == assigned(assignments@, c, idx as int + 1)
                } by {
                    assert(held[c].wf());
                    assert(held[c].members() == assigned(assignments@, c, idx as int));
                }
            }
            idx = idx + 1;
        }
        let mut ci: usize = 0;
        while ci < k
            invariant
                ci <= k <= 32,
                self.num_clusters == k,
                self.cluster_list().len() == k,
                self.old_cluster_list().len() <= 32,
                forall|c: int|
                    0 <= c < self.old_cluster_list().len() ==> (#[trigger] self.old_cluster_list()[c]).wf(),
                forall|c: int|
                    0 <= c < k ==> {
                        let cluster = #[trigger] self.cluster_list()[c];
                        &&& cluster.wf()
                        &&& cluster.cluster_id == c
                        &&& cluster.members() == assigned(assignments@, c, assignments@.len() as int)
                        &&& c < ci ==> !cluster.projected_dirty && identity_block(
                            cluster.intra_mix_raw@,
                            128,
                            cluster.size as int,
                        ) && identity_block(cluster.intra_mix_projected@, 128, cluster.size as int)
                    },
                self.config == old(self).config,
                self.in_transition == (if had_clusters {
                    true
                } else {
                    old(self).in_transition
                }),
                self.transition_tick == (if had_clusters {
                    0
                } else {
                    old(self).transition_tick
                }),
                had_clusters ==> self.old_cluster_list() == old(self).cluster_list() && self.old_inter_mix
                    == Some(old(self).inter_mix_projected),
                !had_clusters ==> self.old_clusters == old(self).old_clusters && self.old_inter_mix == old(self).old_inter_mix,
            decreases k - ci,
        {
            let ghost held = self.cluster_list();
            let cluster: &mut CoherenceCluster = clusters_get_mut(&mut self.clusters, ci);
            cluster.reset_to_identity();
            proof {
                assert forall|c: int| 0 <= c < k implies {
                    let cluster = #[trigger] self.cluster_list()[c];
                    &&& cluster.wf()
                    &&& cluster.cluster_id == c
                    &&& cluster.members() == assigned(assignments@, c, assignments@.len() as int)
                    &&& c < ci + 1 ==> !cluster.projected_dirty && identity_block(
                        cluster.intra_mix_raw@,
                        128,
                        cluster.size as int,
                    ) && identity_block(cluster.intra_mix_projected@, 128, cluster.size as int)
                } by {
                    assert(held[c].wf());
                }
            }
            ci = ci + 1;
        }
        self.inter_mix_raw = [0u32;1024];
        self.inter_mix_projected = [0u32;1024];
        assert(identity_block(self.inter_mix_raw@, 32, 0));
        assert(identity_block(self.inter_mix_projected@, 32, 0));
        let mut i: usize = 0;
        while i < k
            invariant
                i <= k <= 32,
                self.num_clusters == k,
                self.cluster_list().len() == k,
                self.old_cluster_list().len() <= 32,
                forall|c: int|
                    0 <= c < self.old_cluster_list().len() ==> (#[trigger] self.old_cluster_list()[c]).wf(),
                forall|c: int|
                    0 <= c < k ==> {
                        let cluster = #[trigger] self.cluster_list()[c];
                        &&& cluster.wf()
                        &&& cluster.cluster_id == c
                        &&& cluster.members() == assigned(assignments@, c, assignments@.len() as int)
                        &&& !cluster.projected_dirty
                        &&& identity_block(cluster.intra_mix_raw@, 128, cluster.size as int)
                        &&& identity_block(cluster.intra_mix_projected@, 128, cluster.size as int)
                    },
                identity_block(self.inter_mix_raw@, 32, i as int),
                identity_block(self.inter_mix_projected@, 32, i as int),
                self.config == old(self).config,
                self.in_transition == (if had_clusters {
                    true
                } else {
                    old(self).in_transition
                }),
                self.transition_tick == (if had_clusters {
                    0
                } else {
                    old(self).transition_tick
                }),
                had_clusters ==> self.old_cluster_list() == old(self).cluster_list() && self.old_inter_mix
                    == Some(old(self).inter_mix_projected),
                !had_clusters ==> self.old_clusters == old(self).old_clusters && self.old_inter_mix == old(self).old_inter_mix,
            decreases k - i,
        {
            let ghost raw_before = self.inter_mix_raw@;
            let ghost proj_before = self.inter_mix_projected@;
            self.inter_mix_raw[i * MAX_CLUSTERS + i] = ONE;
            self.inter_mix_projected[i * MAX_CLUSTERS + i] = ONE;
            proof {
                assert forall|a: int, b: int| 0 <= a < 32 && 0 <= b < 32 implies #[trigger] entry(
                    self.inter_mix_raw@,
                    32,
                    a,
                    b,
                ) == if a == b && a < i + 1 {
                    ONE
                } else {
                    0u32
                } by {
                    assert(entry(raw_before, 32, a, b) == if a == b && a < i {
                        ONE
                    } else {
                        0u32
                    });
                }
                assert forall|a: int, b: int| 0 <= a < 32 && 0 <= b < 32 implies #[trigger] entry(
                    self.inter_mix_projected@,
                    32,
                    a,
                    b,
                ) == if a == b && a < i + 1 {
                    ONE
                } else {
                    0u32
                } by {
                    assert(entry(proj_before, 32, a, b) == if a == b && a < i {
                        ONE
                    } else {
                        0u32
                    });
                }
            }
            i = i + 1;
        }
    }
}

impl HierarchicalMixer {
    /// The projector within the clusters: a tolerance of one step of the
    /// fixed-point scale, and the configured cap on the sweeps.
    pub open spec fn intra_projector(&self) -> SinkhornKnopp {
        SinkhornKnopp { tolerance: 1, max_iterations: self.config.sk_iterations_intra as u32 }
    }

    /// The projector between the clusters.
    pub open spec fn inter_projector(&self) -> SinkhornKnopp {
        SinkhornKnopp { tolerance: 1, max_iterations: self.config.sk_iterations_inter as u32 }
    }

    /// Projects every mixing matrix anew: within each cluster that has
    /// members, and between the clusters if there are any. Each projection
    /// is padded with the identity.
    pub fn reproject_all(&mut self)
        requires
            old(self).wf(),
        ensures
            final(self).wf(),
            final(self).cluster_list().len() == old(self).cluster_list().len(),
            forall|c: int|
                0 <= c < old(self).cluster_list().len() ==> {
                    let before = old(self).cluster_list()[c];
                    let after = #[trigger] final(self).cluster_list()[c];
                    &&& after.cluster_id == before.cluster_id
                    &&& after.member_indices == before.member_indices
                    &&& after.intra_mix_raw == before.intra_mix_raw
                    &&& after.size == before.size
                    &&& before.size == 0 ==> after == before
                    &&& before.size > 0 ==> !after.projected_dirty && block_projected(
                        before.intra_mix_raw@,
                        after.intra_mix_projected@,
                        128,
                        before.size as int,
                        1,
                        old(self).intra_projector().max_iterations as int,
                    )
                },
            old(self).num_clusters == 0 ==> final(self).inter_mix_projected == old(self).inter_mix_projected,
            old(self).num_clusters > 0 ==> block_projected(
                old(self).inter_mix_raw@,
                final(self).inter_mix_projected@,
                32,
                old(self).num_clusters as int,
                1,
                old(self).inter_projector().max_iterations as int,
            ),
            final(self).inter_mix_raw == old(self).inter_mix_raw,
            final(self).num_clusters == old(self).num_clusters,
            final(self).config == old(self).config,
            final(self).in_transition == old(self).in_transition,
            final(self).transition_tick == old(self).transition_tick,
            final(self).old_clusters == old(self).old_clusters,
            final(self).old_inter_mix == old(self).old_inter_mix,
    {
        let sk_intra: SinkhornKnopp = SinkhornKnopp::new(
            1,
            #[verifier::truncate]
            (self.config.sk_iterations_intra as u32),
        );
        let sk_inter: SinkhornKnopp = SinkhornKnopp::new(
            1,
            #[verifier::truncate]
            (self.config.sk_iterations_inter as u32),
        );
        let count: usize = clusters_slice(&self.clusters).len();
        let mut c: usize = 0;
        while c < count
            invariant
                c <= count == old(self).cluster_list().len() == self.cluster_list().len(),
                old(self).wf(),
                sk_intra == old(self).intra_projector(),
                forall|d: int|
                    0 <= d < count ==> (#[trigger] self.cluster_list()[d]).wf(),
                forall|d: int|
                    c <= d < count ==> #[trigger] self.cluster_list()[d] == old(self).cluster_list()[d],
                forall|d: int|
                    0 <= d < c ==> {
                        let before = old(self).cluster_list()[d];
                        let after = #[trigger] self.cluster_list()[d];
                        &&& after.cluster_id == before.cluster_id
                        &&& after.member_indices == before.member_indices
                        &&& after.intra_mix_raw == before.intra_mix_raw
                        &&& after.size == before.size
                        &&& before.size == 0 ==> after == before
                        &&& before.size > 0 ==> !after.projected_dirty && block_projected(
                            before.intra_mix_raw@,
                            after.intra_mix_projected@,
                            128,
                            before.size as int,
                            1,
                            sk_intra.max_iterations as int,
                        )
                    },
                self.inter_mix_raw == old(self).inter_mix_raw,
                self.inter_mix_projected == old(self).inter_mix_projected,
                self.num_clusters == old(self).num_clusters,
                self.config == old(self).config,
                self.in_transition == old(self).in_transition,
                self.transition_tick == old(self).transition_tick,
                self.old_clusters == old(self).old_clusters,
                self.old_inter_mix == old(self).old_inter_mix,
            decreases count - c,
        {
            let ghost held = self.cluster_list();
            assert(held[c as int].wf());
            let cluster: &mut CoherenceCluster = clusters_get_mut(&mut self.clusters, c);
            cluster.reproject(&sk_intra);
            proof {
                assert forall|d: int| 0 <= d < count implies (#[trigger] self.cluster_list()[d]).wf() by {
                    if d != c {
                        assert(held[d].wf());
                    }
                }
                assert forall|d: int| c + 1 <= d < count implies #[trigger] self.cluster_list()[d]
                    == old(self).cluster_list()[d] by {
                    assert(held[d] == old(self).cluster_list()[d]);
                }
                assert forall|d: int| 0 <= d < c + 1 implies {
                    let before = old(self).cluster_list()[d];
                    let after = #[trigger] self.cluster_list()[d];
                    &&& after.cluster_id == before.cluster_id
                    &&& after.member_indices == before.member_indices
                    &&& after.intra_mix_raw == before.intra_mix_raw
                    &&& after.size == before.size
                    &&& before.size == 0 ==> after == before
                    &&& before.size > 0 ==> !after.projected_dirty && block_projected(
                        before.intra_mix_raw@,
                        after.intra_mix_projected@,
                        128,
                        before.size as int,
                        1,
                        sk_intra.max_iterations as int,
                    )
                } by {
                    if d < c {
                        let before = old(self).cluster_list()[d];
                        let was = held[d];
                        assert(was.size == before.size);
                    } else {
                        assert(held[d] == old(self).cluster_list()[d]);
                    }
                }
            }
            c = c + 1;
        }
        let k: usize = self.num_clusters;
        if k > 0 {
            sk_inter.project_block(self.inter_mix_raw.as_slice(), MAX_CLUSTERS, k, &mut self.inter_mix_projected);
        }
    }
}

/// Decides whether every cluster of a list is well formed.
fn all_well_formed(list: &[CoherenceCluster]) -> (ok: bool)
    ensures
        ok == forall|c: int| 0 <= c < list@.len() ==> (#[trigger] list@[c]).wf(),
{
    let mut ok: bool = true;
    let mut c: usize = 0;
    while c < list.len()
        invariant
            c <= list@.len(),
            ok == forall|d: int| 0 <= d < c ==> (#[trigger] list@[d]).wf(),
        decreases list@.len() - c,
    {
        let one: bool = list[c].is_well_formed();
        ok = ok && one;
        c = c + 1;
    }
    ok
}

/// The weighted sum that mixes the first `upto` members of a cluster into
/// its member `i`: each member's value times the entry of the projected
/// matrix in row `i`. A member whose index lies beyond the values is left out.
pub open spec fn intra_sum(
    projected: Seq<u32>,
    members: Seq<usize>,
    values: Seq<u32>,
    i: int,
    upto: int,
) -> int
    decreases upto,
{
    if upto <= 0 {
        0
    } else {
        intra_sum(projected, members, values, i, upto - 1) + if members[upto - 1] < values.len() {
            entry(projected, 128, i, upto - 1) * (values[members[upto - 1] as int] as int)
        } else {
            0
        }
    }
}

/// The mixed value of member `i` of a cluster, in the unit interval.
pub open spec fn intra_mixed(cluster: CoherenceCluster, values: Seq<u32>, i: int) -> u32 {
    clamp_unit(
        intra_sum(
            cluster.intra_mix_projected@,
            cluster.members(),
            values,
            i,
            cluster.size as int,
        ) / (ONE as int),
    ) as u32
}

/// The values after the first `upto` of `outs` have been written to the
/// places of the members, one after the other.
pub open spec fn written_back(values: Seq<u32>, members: Seq<usize>, outs: Seq<u32>, upto: int) -> Seq<
    u32,
>
    decreases upto,
{
    if upto <= 0 {
        values
    } else {
        let before = written_back(values, members, outs, upto - 1);
        if members[upto - 1] < values.len() {
            before.update(members[upto - 1] as int, outs[upto - 1])
        } else {
            before
        }
    }
}

/// The values after the mixing within one cluster.
pub open spec fn after_intra_cluster(values: Seq<u32>, cluster: CoherenceCluster) -> Seq<u32> {
    written_back(
        values,
        cluster.members(),
        Seq::new(cluster.size as nat, |i: int| intra_mixed(cluster, values, i)),
        cluster.size as int,
    )
}

/// The values after the mixing within the first `upto` clusters.
pub open spec fn after_intra(values: Seq<u32>, clusters: Seq<CoherenceCluster>, upto: int) -> Seq<u32>
    decreases upto,
{
    if upto <= 0 {
        values
    } else {
        after_intra_cluster(after_intra(values, clusters, upto - 1), clusters[upto - 1])
    }
}

/// The sum of the values of the first `upto` members.
pub open spec fn member_sum(values: Seq<u32>, members: Seq<usize>, upto: int) -> int
    decreases upto,
{
    if upto <= 0 {
        0
    } else {
        member_sum(values, members, upto - 1) + if members[upto - 1] < values.len() {
            values[members[upto - 1] as int] as int
        } else {
            0
        }
    }
}

/// The mean value of a cluster; zero for a cluster without members.
pub open spec fn cluster_mean(values: Seq<u32>, cluster: CoherenceCluster) -> int {
    if cluster.size == 0 {
        0
    } else {
        member_sum(values, cluster.members(), cluster.size as int) / (cluster.size as int)
    }
}

/// The weighted sum that mixes the first `upto` cluster means into the
/// mean of cluster `i`.
pub open spec fn inter_sum(inter: Seq<u32>, means: Seq<u64>, i: int, upto: int) -> int
    decreases upto,
{
    if upto <= 0 {
        0
    } else {
        inter_sum(inter, means, i, upto - 1) + entry(inter, 32, i, upto - 1) * (means[upto - 1] as int)
    }
}

/// The sum of the interaction counts of the first `upto` members,
/// saturating. A member whose index lies beyond the counts is left out.
pub open spec fn count_total(counts: Seq<u32>, members: Seq<usize>, upto: int) -> int
    decreases upto,
{
    if upto <= 0 {
        0
    } else {
        let before = count_total(counts, members, upto - 1);
        let here = if members[upto - 1] < counts.len() {
            counts[members[upto - 1] as int] as int
        } else {
            0
        };
        if before + here > u32::MAX {
            u32::MAX as int
        } else {
            before + here
        }
    }
}

/// The part of the change of a cluster's mean that goes to one member:
/// in proportion to its interaction count, or an equal part if the cluster
/// has no counts or the member has none on record.
pub open spec fn share_of(gap: int, counts: Seq<u32>, index: int, total: int, size: int) -> int {
    if total > 0 && index < counts.len() {
        gap * (counts[index] as int) / total
    } else {
        gap / size
    }
}

/// A value moved by a share of the change, up or down, in the unit interval.
pub open spec fn corrected(value: int, rises: bool, share: int) -> u32 {
    clamp_unit(
        if rises {
            value + share
        } else {
            value - share
        },
    ) as u32
}

/// The values after the first `upto` members of a cluster have been
/// corrected, one after the other.
pub open spec fn corrected_back(
    values: Seq<u32>,
    counts: Seq<u32>,
    members: Seq<usize>,
    rises: bool,
    gap: int,
    total: int,
    size: int,
    upto: int,
) -> Seq<u32>
    decreases upto,
{
    if upto <= 0 {
        values
    } else {
        let before = corrected_back(values, counts, members, rises, gap, total, size, upto - 1);
        let index = members[upto - 1] as int;
        if index < values.len() {
            before.update(
                index,
                corrected(before[index] as int, rises, share_of(gap, counts, index, total, size)),
            )
        } else {
            before
        }
    }
}

/// The values after the correction of one cluster whose mean was `mean`
/// and has been mixed to `mixed`.
pub open spec fn after_correction_cluster(
    values: Seq<u32>,
    counts: Seq<u32>,
    cluster: CoherenceCluster,
    mean: int,
    mixed: int,
) -> Seq<u32> {
    corrected_back(
        values,
        counts,
        cluster.members(),
        mixed >= mean,
        if mixed >= mean {
            mixed - mean
        } else {
            mean - mixed
        },
        count_total(counts, cluster.members(), cluster.size as int),
        cluster.size as int,
        cluster.size as int,
    )
}

/// The values after the correction of the first `upto` clusters.
pub open spec fn after_correction(
    values: Seq<u32>,
    counts: Seq<u32>,
    clusters: Seq<CoherenceCluster>,
    means: Seq<u64>,
    mixed: Seq<u64>,
    upto: int,
) -> Seq<u32>
    decreases upto,
{
    if upto <= 0 {
        values
    } else {
        after_correction_cluster(
            after_correction(values, counts, clusters, means, mixed, upto - 1),
            counts,
            clusters[upto - 1],
            means[upto - 1] as int,
            mixed[upto - 1] as int,
        )
    }
}

/// Whether `means` holds the mean of each cluster.
pub open spec fn means_of(means: Seq<u64>, values: Seq<u32>, clusters: Seq<CoherenceCluster>) -> bool {
    forall|c: int| 0 <= c < clusters.len() ==> #[trigger] means[c] == cluster_mean(values, clusters[c])
}

/// Whether `mixed` holds each cluster mean after the mixing between the clusters.
pub open spec fn mixed_of(mixed: Seq<u64>, inter: Seq<u32>, means: Seq<u64>, num: int) -> bool {
    forall|c: int| 0 <= c < num ==> #[trigger] mixed[c] == inter_sum(inter, means, c, num) / (ONE as int)
}

/// Whether `after` is what the five steps of the hierarchical mixing make
/// of `before`: the values are mixed within each cluster; the cluster means
/// are taken and mixed between the clusters; and the change of each mean is
/// handed down to the members of its cluster.
pub open spec fn mixed_values(
    clusters: Seq<CoherenceCluster>,
    inter: Seq<u32>,
    before: Seq<u32>,
    counts: Seq<u32>,
    after: Seq<u32>,
) -> bool {
    let within = after_intra(before, clusters, clusters.len() as int);
    exists|means: Seq<u64>, mixed: Seq<u64>|
        means.len() == 32 && mixed.len() == 32 && means_of(means, within, clusters) && mixed_of(
            mixed,
            inter,
            means,
            clusters.len() as int,
        ) && after == #[trigger] after_correction(
            within,
            counts,
            clusters,
            means,
            mixed,
            clusters.len() as int,
        )
}

/// A wide value limited to the unit interval.
fn clamp_wide(x: u128) -> (r: u32)
    ensures
        r == clamp_unit(x as int),
{
    if x > ONE as u128 {
        ONE
    } else {
        x as u32
    }
}

/// Writing back never changes how many values there are.
proof fn lemma_written_back_len(values: Seq<u32>, members: Seq<usize>, outs: Seq<u32>, upto: int)
    ensures
        written_back(values, members, outs, upto).len() == values.len(),
    decreases upto,
{
    if upto > 0 {
        lemma_written_back_len(values, members, outs, upto - 1);
    }
}

/// Writing back only looks at the outs that it writes.
proof fn lemma_written_back_agrees(
    values: Seq<u32>,
    members: Seq<usize>,
    outs: Seq<u32>,
    outs2: Seq<u32>,
    upto: int,
)
    requires
        forall|i: int| 0 <= i < upto ==> outs[i] == outs2[i],
    ensures
        written_back(values, members, outs, upto) == written_back(values, members, outs2, upto),
    decreases upto,
{
    if upto > 0 {
        lemma_written_back_agrees(values, members, outs, outs2, upto - 1);
    }
}

/// The sums of the mixing stay within what 128 bits hold.
proof fn lemma_intra_sum_bound(
    projected: Seq<u32>,
    members: Seq<usize>,
    values: Seq<u32>,
    i: int,
    upto: int,
)
    requires
        0 <= upto,
    ensures
        0 <= intra_sum(projected, members, values, i, upto) <= upto * 0xffff_ffff_0000_0000,
    decreases upto,
{
    if upto > 0 {
        lemma_intra_sum_bound(projected, members, values, i, upto - 1);
        if members[upto - 1] < values.len() {
            let x = entry(projected, 128, i, upto - 1);
            let y = values[members[upto - 1] as int] as int;
            assert(0 <= x * y <= 0xffff_ffff_0000_0000) by (nonlinear_arith)
                requires
                    0 <= x <= 0xffff_ffff,
                    0 <= y <= 0xffff_ffff,
            ;
        }
    }
}

/// The sum of the values of members stays within what 64 bits hold.
proof fn lemma_member_sum_bound(values: Seq<u32>, members: Seq<usize>, upto: int)
    requires
        0 <= upto,
    ensures
        0 <= member_sum(values, members, upto) <= upto * 0xffff_ffff,
    decreases upto,
{
    if upto > 0 {
        lemma_member_sum_bound(values, members, upto - 1);
    }
}

/// The sums of the mixing between the clusters stay within what 128 bits hold.
proof fn lemma_inter_sum_bound(inter: Seq<u32>, means: Seq<u64>, i: int, upto: int)
    requires
        0 <= upto,
        forall|k: int| 0 <= k < upto ==> #[trigger] means[k] <= 0xffff_ffff,
    ensures
        0 <= inter_sum(inter, means, i, upto) <= upto * 0xffff_ffff_0000_0000,
    decreases upto,
{
    if upto > 0 {
        lemma_inter_sum_bound(inter, means, i, upto - 1);
        let x = entry(inter, 32, i, upto - 1);
        let y = means[upto - 1] as int;
        assert(0 <= x * y <= 0xffff_ffff_0000_0000) by (nonlinear_arith)
            requires
                0 <= x <= 0xffff_ffff,
                0 <= y <= 0xffff_ffff,
        ;
    }
}

/// The total of the counts is a count.
proof fn lemma_count_total_bound(counts: Seq<u32>, members: Seq<usize>, upto: int)
    ensures
        0 <= count_total(counts, members, upto) <= u32::MAX,
    decreases upto,
{
    if upto > 0 {
        lemma_count_total_bound(counts, members, upto - 1);
    }
}

/// Correcting never changes how many values there are.
proof fn lemma_corrected_back_len(
    values: Seq<u32>,
    counts: Seq<u32>,
    members: Seq<usize>,
    rises: bool,
    gap: int,
    total: int,
    size: int,
    upto: int,
)
    ensures
        corrected_back(values, counts, members, rises, gap, total, size, upto).len() == values.len(),
    decreases upto,
{
    if upto > 0 {
        lemma_corrected_back_len(values, counts, members, rises, gap, total, size, upto - 1);
    }
}

/// Mixes the values of the members of one cluster by its projected matrix.
fn mix_within(cluster: &CoherenceCluster, values: &mut [u32])
    requires
        cluster.wf(),
    ensures
        final(values)@ == after_intra_cluster(old(values)@, *cluster),
        final(values)@.len() == old(values)@.len(),
{
    let members: &[usize] = members_slice(&cluster.member_indices);
    let n: usize = cluster.size;
    let len: usize = values.len();
    let ghost start = values@;
    let mut outs: Vec<u32> = Vec::new();
    let mut i: usize = 0;
    while i < n
        invariant
            i <= n <= 128,
            cluster.wf(),
            n == cluster.size,
            members@ == cluster.members(),
            values@ == start,
            len == start.len(),
            outs@.len() == i,
            forall|a: int| 0 <= a < i ==> #[trigger] outs@[a] == intra_mixed(*cluster, start, a),
        decreases n - i,
    {
        let mut sum: u128 = 0;
        let mut k: usize = 0;
        while k < n
            invariant
                i < n <= 128,
                k <= n,
                cluster.wf(),
                n == cluster.size,
                members@ == cluster.members(),
                values@ == start,
                len == start.len(),
                sum == intra_sum(cluster.intra_mix_projected@, members@, start, i as int, k as int),
            decreases n - k,
        {
            proof {
                lemma_intra_sum_bound(
                    cluster.intra_mix_projected@,
                    members@,
                    start,
                    i as int,
                    k as int,
                );
                lemma_intra_sum_bound(
                    cluster.intra_mix_projected@,
                    members@,
                    start,
                    i as int,
                    k as int + 1,
                );
            }
            let global: usize = members[k];
            if global < len {
                let weight: u128 = cluster.intra_mix_projected[i * MAX_CLUSTER_SIZE + k] as u128;
                let value: u128 = values[global] as u128;
                assert(weight * value <= 0xffff_ffff_0000_0000) by (nonlinear_arith)
                    requires
                        0 <= weight <= 0xffff_ffff,
                        0 <= value <= 0xffff_ffff,
                ;
                sum = sum + weight * value;
            }
            k = k + 1;
        }
        outs.push(clamp_wide(sum / (ONE as u128)));
        i = i + 1;
    }
    let mut i: usize = 0;
    while i < n
        invariant
            i <= n <= 128,
            n == cluster.size,
            members@ == cluster.members(),
            members@.len() == n,
            outs@.len() == n,
            len == start.len(),
            values@.len() == len,
            values@ == written_back(start, members@, outs@, i as int),
        decreases n - i,
    {
        let global: usize = members[i];
        if global < len {
            values[global] = outs[i];
        }
        i = i + 1;
    }
    proof {
        let wanted = Seq::new(n as nat, |a: int| intra_mixed(*cluster, start, a));
        lemma_written_back_agrees(start, members@, outs@, wanted, n as int);
    }
}

/// The mean value of one cluster.
fn mean_of(cluster: &CoherenceCluster, values: &[u32]) -> (mean: u64)
    requires
        cluster.wf(),
    ensures
        mean == cluster_mean(values@, *cluster),
        mean <= 0xffff_ffff,
{
    let members: &[usize] = members_slice(&cluster.member_indices);
    let n: usize = cluster.size;
    if n == 0 {
        return 0;
    }
    let len: usize = values.len();
    let mut sum: u64 = 0;
    let mut j: usize = 0;
    while j < n
        invariant
            j <= n <= 128,
            n == cluster.size,
            members@ == cluster.members(),
            members@.len() == n,
            len == values@.len(),
            sum == member_sum(values@, members@, j as int),
            sum <= j * 0xffff_ffff,
        decreases n - j,
    {
        let index: usize = members[j];
        if index < len {
            sum = sum + values[index] as u64;
        }
        j = j + 1;
    }
    let mean: u64 = sum / (n as u64);
    assert(mean <= 0xffff_ffff) by (nonlinear_arith)
        requires
            mean == sum / (n as u64),
            0 < n,
            sum <= n * 0xffff_ffff,
    ;
    mean
}

/// Mixes the cluster means by the matrix between the clusters.
fn mix_between(inter: &[u32; 1024], means: &[u64; 32], num: usize) -> (mixed: [u64; 32])
    requires
        num <= 32,
        forall|k: int| 0 <= k < num ==> #[trigger] means@[k] <= 0xffff_ffff,
    ensures
        mixed_of(mixed@, inter@, means@, num as int),
        forall|c: int| 0 <= c < num ==> #[trigger] mixed@[c] <= 0x4_0000_0000_0000,
{
    let mut mixed: [u64; 32] = [0u64;32];
    let mut i: usize = 0;
    while i < num
        invariant
            i <= num <= 32,
            forall|k: int| 0 <= k < num ==> #[trigger] means@[k] <= 0xffff_ffff,
            forall|c: int|
                0 <= c < i ==> #[trigger] mixed@[c] == inter_sum(inter@, means@, c, num as int) / (
                ONE as int) && mixed@[c] <= 0x4_0000_0000_0000,
        decreases num - i,
    {
        let mut sum: u128 = 0;
        let mut k: usize = 0;
        while k < num
            invariant
                i < num <= 32,
                k <= num,
                forall|x: int| 0 <= x < num ==> #[trigger] means@[x] <= 0xffff_ffff,
                sum == inter_sum(inter@, means@, i as int, k as int),
            decreases num - k,
        {
            proof {
                lemma_inter_sum_bound(inter@, means@, i as int, k as int);
                lemma_inter_sum_bound(inter@, means@, i as int, k as int + 1);
            }
            let weight: u128 = inter[i * MAX_CLUSTERS + k] as u128;
            let mean: u128 = means[k] as u128;
            assert(weight * mean <= 0xffff_ffff_0000_0000) by (nonlinear_arith)
                requires
                    0 <= weight <= 0xffff_ffff,
                    0 <= mean <= 0xffff_ffff,
            ;
            sum = sum + weight * mean;
            k = k + 1;
        }
        proof {
            lemma_inter_sum_bound(inter@, means@, i as int, num as int);
        }
        let scaled: u128 = sum / (ONE as u128);
        mixed[i] = scaled as u64;
        i = i + 1;
    }
    mixed
}

/// Hands the change of a cluster's mean down to its members.
fn correct_cluster(cluster: &CoherenceCluster, values: &mut [u32], counts: &[u32], mean: u64, mixed: u64)
    requires
        cluster.wf(),
        mean <= 0xffff_ffff,
        mixed <= 0x4_0000_0000_0000,
    ensures
        final(values)@ == after_correction_cluster(
            old(values)@,
            counts@,
            *cluster,
            mean as int,
            mixed as int,
        ),
        final(values)@.len() == old(values)@.len(),
{
    let members: &[usize] = members_slice(&cluster.member_indices);
    let n: usize = cluster.size;
    let value_len: usize = values.len();
    let count_len: usize = counts.len();
    let rises: bool = mixed >= mean;
    let gap: u64 = if rises {
        mixed - mean
    } else {
        mean - mixed
    };
    let mut total: u32 = 0;
    let mut j: usize = 0;
    while j < n
        invariant
            j <= n <= 128,
            n == cluster.size,
            members@ == cluster.members(),
            members@.len() == n,
            count_len == counts@.len(),
            total == count_total(counts@, members@, j as int),
        decreases n - j,
    {
        let index: usize = members[j];
        if index < count_len {
            total = total.saturating_add(counts[index]);
        }
        j = j + 1;
    }
    let ghost start = values@;
    let mut j: usize = 0;
    while j < n
        invariant
            j <= n <= 128,
            0 < n || j == 0,
            n == cluster.size,
            members@ == cluster.members(),
            members@.len() == n,
            count_len == counts@.len(),
            value_len == start.len(),
            values@.len() == value_len,
            gap <= 0x4_0000_0000_0000,
            values@ == corrected_back(
                start,
                counts@,
                members@,
                rises,
                gap as int,
                total as int,
                n as int,
                j as int,
            ),
        decreases n - j,
    {
        let index: usize = members[j];
        if index < value_len {
            let share: u128 = if total > 0 && index < count_len {
                let count: u128 = counts[index] as u128;
                assert(gap as int * count as int <= 0x4_0000_0000_0000 * 0xffff_ffff)
                    by (nonlinear_arith)
                    requires
                        0 <= gap <= 0x4_0000_0000_0000,
                        0 <= count <= 0xffff_ffff,
                ;
                (gap as u128) * count / (total as u128)
            } else {
                (gap as u128) / (n as u128)
            };
            assert(share <= 0x4_0000_0000_0000 * 0xffff_ffff) by (nonlinear_arith)
                requires
                    share == share_of(gap as int, counts@, index as int, total as int, n as int),
                    0 <= gap <= 0x4_0000_0000_0000,
                    0 < n,
                    total > 0 && index < counts@.len() ==> counts@[index as int] <= 0xffff_ffff
                        && total >= 1,
            {
                if total > 0 && index < counts@.len() {
                    let count = counts@[index as int] as int;
                    assert((gap as int) * count / (total as int) <= (gap as int) * count);
                    assert((gap as int) * count <= 0x4_0000_0000_0000 * 0xffff_ffff);
                } else {
                    assert((gap as int) / (n as int) <= gap as int);
                }
            }
            let value: u128 = values[index] as u128;
            let moved: u32 = if rises {
                clamp_wide(value + share)
            } else if share >= value {
                0
            } else {
                clamp_wide(value - share)
            };
            values[index] = moved;
        }
        j = j + 1;
    }
}

/// The five steps of the hierarchical mixing, over one cluster structure.
fn apply_core(
    clusters: &heapless::Vec<CoherenceCluster, 32>,
    inter_mix: &[u32; 1024],
    coherence_values: &mut [u32],
    interaction_counts: &[u32],
)
    requires
        clusters_of(*clusters).len() <= 32,
        forall|c: int| 0 <= c < clusters_of(*clusters).len() ==> (#[trigger] clusters_of(*clusters)[c]).wf(),
    ensures
        mixed_values(
            clusters_of(*clusters),
            inter_mix@,
            old(coherence_values)@,
            interaction_counts@,
            final(coherence_values)@,
        ),
        final(coherence_values)@.len() == old(coherence_values)@.len(),
{
    let list: &[CoherenceCluster] = clusters_slice(clusters);
    let num: usize = list.len();
    let ghost start = coherence_values@;
    let mut c: usize = 0;
    while c < num
        invariant
            c <= num <= 32,
            list@ == clusters_of(*clusters),
            list@.len() == num,
            forall|d: int| 0 <= d < num ==> (#[trigger] list@[d]).wf(),
            coherence_values@.len() == start.len(),
            coherence_values@ == after_intra(start, list@, c as int),
        decreases num - c,
    {
        assert(list@[c as int].wf());
        mix_within(&list[c], coherence_values);
        c = c + 1;
    }
    let ghost within = coherence_values@;
    let mut means: [u64; 32] = [0u64;32];
    let mut c: usize = 0;
    while c < num
        invariant
            c <= num <= 32,
            list@ == clusters_of(*clusters),
            list@.len() == num,
            forall|d: int| 0 <= d < num ==> (#[trigger] list@[d]).wf(),
            coherence_values@ == within,
            forall|d: int|
                0 <= d < c ==> #[trigger] means@[d] == cluster_mean(within, list@[d]) && means@[d]
                    <= 0xffff_ffff,
        decreases num - c,
    {
        assert(list@[c as int].wf());
        means[c] = mean_of(&list[c], coherence_values);
        c = c + 1;
    }
    let mixed: [u64; 32] = mix_between(inter_mix, &means, num);
    let mut c: usize = 0;
    while c < num
        invariant
            c <= num <= 32,
            list@ == clusters_of(*clusters),
            list@.len() == num,
            forall|d: int| 0 <= d < num ==> (#[trigger] list@[d]).wf(),
            forall|d: int| 0 <= d < num ==> #[trigger] means@[d] <= 0xffff_ffff,
            forall|d: int| 0 <= d < num ==> #[trigger] mixed@[d] <= 0x4_0000_0000_0000,
            coherence_values@.len() == start.len(),
            coherence_values@ == after_correction(
                within,
                interaction_counts@,
                list@,
                means@,
                mixed@,
                c as int,
            ),
        decreases num - c,
    {
        assert(list@[c as int].wf());
        correct_cluster(&list[c], coherence_values, interaction_counts, means[c], mixed[c]);
        c = c + 1;
    }
    proof {
        assert(means_of(means@, within, list@));
        assert(mixed_of(mixed@, inter_mix@, means@, num as int));
    }
}

/// The blend of an old and a new value at the blend factor `alpha`:
/// `(1 - alpha) * old + alpha * new`, in the unit interval.
pub open spec fn blend_of(old_value: int, new_value: int, alpha: int) -> u32 {
    clamp_unit(((ONE - alpha) * old_value + alpha * new_value) / (ONE as int)) as u32
}

impl HierarchicalMixer {
    /// Whether the mixer blends two structures: a transition is under way
    /// and the old structure is on record.
    pub open spec fn blends(&self) -> bool {
        self.in_transition && self.old_clusters is Some && self.old_inter_mix is Some
    }

    /// Whether `after` is the blend of `by_old` and `by_new`, which are what
    /// the old and the new structure make of `before`, at the blend factor
    /// of the transition.
    pub open spec fn blended(
        &self,
        before: Seq<u32>,
        counts: Seq<u32>,
        by_old: Seq<u32>,
        by_new: Seq<u32>,
        after: Seq<u32>,
    ) -> bool {
        &&& mixed_values(self.old_cluster_list(), self.old_inter_mix->0@, before, counts, by_old)
        &&& mixed_values(self.cluster_list(), self.inter_mix_projected@, before, counts, by_new)
        &&& by_old.len() == by_new.len() == after.len()
        &&& forall|i: int|
            0 <= i < after.len() ==> #[trigger] after[i] == blend_of(
                by_old[i] as int,
                by_new[i] as int,
                alpha_of(self.transition_tick as int, self.config.transition_blend_ticks as int),
            )
    }

    /// Applies the five steps of the hierarchical mixing to the values, in
    /// place. `interaction_counts[i]` belongs to the same context as
    /// `coherence_values[i]`.
    ///
    /// While a transition is under way, the values are mixed by the old
    /// structure and by the new, and the two results are blended value by
    /// value at the blend factor of the transition.
    pub fn apply(&self, coherence_values: &mut [u32], interaction_counts: &[u32])
        requires
            self.wf(),
        ensures
            final(coherence_values)@.len() == old(coherence_values)@.len(),
            !self.blends() ==> mixed_values(
                self.cluster_list(),
                self.inter_mix_projected@,
                old(coherence_values)@,
                interaction_counts@,
                final(coherence_values)@,
            ),
            self.blends() ==> exists|by_old: Seq<u32>, by_new: Seq<u32>| #[trigger]
                self.blended(
                    old(coherence_values)@,
                    interaction_counts@,
                    by_old,
                    by_new,
                    final(coherence_values)@,
                ),
    {
        if self.in_transition {
            match (&self.old_clusters, &self.old_inter_mix) {
                (Some(old_clusters), Some(old_inter)) => {
                    let n: usize = coherence_values.len();
                    let alpha: u32 = blend_alpha(
                        self.transition_tick,
                        self.config.transition_blend_ticks,
                    );
                    let mut by_old: Vec<u32> = Vec::new();
                    let mut i: usize = 0;
                    while i < n
                        invariant
                            i <= n == coherence_values@.len(),
                            by_old@.len() == i,
                            forall|a: int| 0 <= a < i ==> by_old@[a] == coherence_values@[a],
                        decreases n - i,
                    {
                        by_old.push(coherence_values[i]);
                        i = i + 1;
                    }
                    assert(by_old@ =~= coherence_values@);
                    assert(self.old_cluster_list() == clusters_of(*old_clusters));
                    apply_core(
                        old_clusters,
                        old_inter,
                        by_old.as_mut_slice(),
                        interaction_counts,
                    );
                    apply_core(
                        &self.clusters,
                        &self.inter_mix_projected,
                        coherence_values,
                        interaction_counts,
                    );
                    let ghost by_new = coherence_values@;
                    let mut i: usize = 0;
                    while i < n
                        invariant
                            i <= n == coherence_values@.len(),
                            by_old@.len() == n,
                            by_new.len() == n,
                            alpha <= ONE,
                            forall|a: int|
                                0 <= a < i ==> #[trigger] coherence_values@[a] == blend_of(
                                    by_old@[a] as int,
                                    by_new[a] as int,
                                    alpha as int,
                                ),
                            forall|a: int| i <= a < n ==> coherence_values@[a] == by_new[a],
                        decreases n - i,
                    {
                        let kept: u64 = (ONE - alpha) as u64;
                        let was: u64 = by_old[i] as u64;
                        let now: u64 = coherence_values[i] as u64;
                        assert(kept * was <= 1_000_000 * 0xffff_ffff && (alpha as u64) * now
                            <= 1_000_000 * 0xffff_ffff) by (nonlinear_arith)
                            requires
                                0 <= kept <= 1_000_000,
                                0 <= alpha <= 1_000_000,
                                0 <= was <= 0xffff_ffff,
                                0 <= now <= 0xffff_ffff,
                        ;
                        let blended: u64 = (kept * was + (alpha as u64) * now) / 1_000_000;
                        coherence_values[i] = if blended > ONE as u64 {
                            ONE
                        } else {
                            blended as u32
                        };
                        i = i + 1;
                    }
                    assert(self.blended(
                        old(coherence_values)@,
                        interaction_counts@,
                        by_old@,
                        by_new,
                        coherence_values@,
                    ));
                },
                _ => {
                    apply_core(
                        &self.clusters,
                        &self.inter_mix_projected,
                        coherence_values,
                        interaction_counts,
                    );
                },
            }
        } else {
            apply_core(
                &self.clusters,
                &self.inter_mix_projected,
                coherence_values,
                interaction_counts,
            );
        }
    }
}

/// What is written back to the members lies in the unit interval, so
/// values that were in the unit interval stay there.
proof fn lemma_written_back_in_unit(values: Seq<u32>, members: Seq<usize>, outs: Seq<u32>, upto: int)
    requires
        forall|i: int| 0 <= i < values.len() ==> #[trigger] values[i] <= ONE,
        forall|i: int| 0 <= i < upto ==> #[trigger] outs[i] <= ONE,
    ensures
        forall|i: int|
            0 <= i < values.len() ==> #[trigger] written_back(values, members, outs, upto)[i] <= ONE,
        written_back(values, members, outs, upto).len() == values.len(),
    decreases upto,
{
    if upto > 0 {
        lemma_written_back_in_unit(values, members, outs, upto - 1);
        assert(outs[upto - 1] <= ONE);
    }
}

/// The mixing within clusters keeps values in the unit interval.
proof fn lemma_after_intra_in_unit(values: Seq<u32>, clusters: Seq<CoherenceCluster>, upto: int)
    requires
        forall|i: int| 0 <= i < values.len() ==> #[trigger] values[i] <= ONE,
        0 <= upto <= clusters.len(),
    ensures
        forall|i: int|
            0 <= i < values.len() ==> #[trigger] after_intra(values, clusters, upto)[i] <= ONE,
        after_intra(values, clusters, upto).len() == values.len(),
    decreases upto,
{
    if upto > 0 {
        lemma_after_intra_in_unit(values, clusters, upto - 1);
        let before = after_intra(values, clusters, upto - 1);
        let cluster = clusters[upto - 1];
        let outs = Seq::new(cluster.size as nat, |i: int| intra_mixed(cluster, before, i));
        lemma_written_back_in_unit(before, cluster.members(), outs, cluster.size as int);
    }
}

/// The correction keeps values in the unit interval.
proof fn lemma_corrected_back_in_unit(
    values: Seq<u32>,
    counts: Seq<u32>,
    members: Seq<usize>,
    rises: bool,
    gap: int,
    total: int,
    size: int,
    upto: int,
)
    requires
        forall|i: int| 0 <= i < values.len() ==> #[trigger] values[i] <= ONE,
    ensures
        forall|i: int|
            0 <= i < values.len() ==> #[trigger] corrected_back(
                values,
                counts,
                members,
                rises,
                gap,
                total,
                size,
                upto,
            )[i] <= ONE,
        corrected_back(values, counts, members, rises, gap, total, size, upto).len() == values.len(),
    decreases upto,
{
    if upto > 0 {
        lemma_corrected_back_in_unit(values, counts, members, rises, gap, total, size, upto - 1);
    }
}

/// The correction of clusters keeps values in the unit interval.
proof fn lemma_after_correction_in_unit(
    values: Seq<u32>,
    counts: Seq<u32>,
    clusters: Seq<CoherenceCluster>,
    means: Seq<u64>,
    mixed: Seq<u64>,
    upto: int,
)
    requires
        forall|i: int| 0 <= i < values.len() ==> #[trigger] values[i] <= ONE,
    ensures
        forall|i: int|
            0 <= i < values.len() ==> #[trigger] after_correction(
                values,
                counts,
                clusters,
                means,
                mixed,
                upto,
            )[i] <= ONE,
        after_correction(values, counts, clusters, means, mixed, upto).len() == values.len(),
    decreases upto,
{
    if upto > 0 {
        lemma_after_correction_in_unit(values, counts, clusters, means, mixed, upto - 1);
        let before = after_correction(values, counts, clusters, means, mixed, upto - 1);
        let cluster = clusters[upto - 1];
        let mean = means[upto - 1] as int;
        let mix = mixed[upto - 1] as int;
        lemma_corrected_back_in_unit(
            before,
            counts,
            cluster.members(),
            mix >= mean,
            if mix >= mean {
                mix - mean
            } else {
                mean - mix
            },
            count_total(counts, cluster.members(), cluster.size as int),
            cluster.size as int,
            cluster.size as int,
        );
    }
}

/// Mixing keeps every value in the unit interval: values that lie in the
/// unit interval before the five steps lie in it after them.
pub proof fn lemma_mixed_values_in_unit(
    clusters: Seq<CoherenceCluster>,
    inter: Seq<u32>,
    before: Seq<u32>,
    counts: Seq<u32>,
    after: Seq<u32>,
)
    requires
        mixed_values(clusters, inter, before, counts, after),
        forall|i: int| 0 <= i < before.len() ==> #[trigger] before[i] <= ONE,
    ensures
        after.len() == before.len(),
        forall|i: int| 0 <= i < after.len() ==> #[trigger] after[i] <= ONE,
{
    let within = after_intra(before, clusters, clusters.len() as int);
    lemma_after_intra_in_unit(before, clusters, clusters.len() as int);
    let (means, mixed) = choose|means: Seq<u64>, mixed: Seq<u64>|
        means.len() == 32 && mixed.len() == 32 && means_of(means, within, clusters) && mixed_of(
            mixed,
            inter,
            means,
            clusters.len() as int,
        ) && after == #[trigger] after_correction(
            within,
            counts,
            clusters,
            means,
            mixed,
            clusters.len() as int,
        );
    lemma_after_correction_in_unit(within, counts, clusters, means, mixed, clusters.len() as int);
}

} // verus!
