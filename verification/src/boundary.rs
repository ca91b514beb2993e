//! The comfort-zone boundary: a global minimum cut of the context graph.
//!
//! Nodes are contexts, identified by their hash. An edge is created when a
//! context is registered, with the cosine similarity to each known context as
//! its weight, if that similarity exceeds one tenth. Once both ends of an
//! edge have been observed often enough, the weight is replaced by a
//! trust-scaled one. The boundary is the cheapest way to part the graph in
//! two; no threshold is configured for it.

use vstd::prelude::*;
use core::marker::PhantomData;
use crate::cut::{cut_weight, is_side, rest_of, weights_symmetric, weights_within};
use crate::stoer_wagner::{mask_set, stoer_wagner, weights_of};
use crate::units::{clamp_unit, ONE};
use crate::vocabulary::{cosine_of, fnv1a, ContextKey, SensorVocabulary};

verus! {

/// The most contexts that the boundary graph tracks.
pub const MAX_CONTEXTS: usize = 64;

/// A similarity must exceed this for an edge to exist: one tenth.
pub const EDGE_THRESHOLD: u32 = 100_000;

/// The observations that both ends of an edge need before trust scales its weight.
pub const MIN_TRUST_OBSERVATIONS: u32 = 50;

/// The natural logarithm of two, in fixed point.
pub const LN2: u64 = 693_147;

/// Arguments above this have a hyperbolic tangent of one: nine, in fixed point.
pub const TANH_SATURATION: u64 = 9_000_000;

/// Two to the power `k`.
pub open spec fn two_to(k: int) -> int
    decreases k,
{
    if k <= 0 {
        1
    } else {
        2 * two_to(k - 1)
    }
}

/// The multiple of `ln 2` nearest to `y`: `y / ln 2`, rounded half up.
pub open spec fn exp_shift(y: int) -> int {
    (2 * y + LN2) / (2 * (LN2 as int))
}

/// The Taylor polynomial of degree five of `exp` at `r`, in fixed point.
///
/// Powers of `|r|` are formed one division at a time; the even and the odd
/// terms are summed apart and joined by the sign of `r`.
pub open spec fn exp_poly(r: int) -> int {
    let a = if r < 0 {
        -r
    } else {
        r
    };
    let a2 = a * a / (ONE as int);
    let a3 = a2 * a / (ONE as int);
    let a4 = a3 * a / (ONE as int);
    let a5 = a4 * a / (ONE as int);
    let even = ONE + a2 / 2 + a4 / 24;
    let odd = a + a3 / 6 + a5 / 120;
    if r < 0 {
        even - odd
    } else {
        even + odd
    }
}

/// The approximation of `exp(y)` for `y >= 0`, in fixed point: the
/// argument is reduced by the nearest multiple of `ln 2`, the polynomial is
/// taken of the rest, and the result is scaled by the power of two.
pub open spec fn exp_of(y: int) -> int {
    exp_poly(y - exp_shift(y) * LN2) * two_to(exp_shift(y))
}

/// The approximation of `tanh(x)`, in fixed point. The function is odd:
/// a negative argument gives the negated value of its magnitude.
pub open spec fn tanh_of(x: int) -> int {
    if x < 0 {
        -tanh_magnitude(-x)
    } else {
        tanh_magnitude(x)
    }
}

/// The approximation of `tanh(x)` for `x >= 0`, in fixed point:
/// `1 - 2 / (exp(2x) + 1)`, and one beyond the saturation point.
pub open spec fn tanh_magnitude(x: int) -> int {
    if x > TANH_SATURATION {
        ONE as int
    } else {
        let q = 2_000_000_000_000int / (exp_of(2 * x) + ONE);
        if q > ONE {
            0
        } else {
            ONE - q
        }
    }
}

/// The weight of an edge once trust scales it: the current weight times the
/// hyperbolic tangents of twice the coherence of each end, if both ends have
/// been observed often enough, and the current weight otherwise.
pub open spec fn trust_weight(current: int, coh_a: int, obs_a: int, coh_b: int, obs_b: int) -> int {
    if obs_a >= MIN_TRUST_OBSERVATIONS && obs_b >= MIN_TRUST_OBSERVATIONS {
        clamp_unit(
            current * tanh_of(2 * coh_a) * tanh_of(2 * coh_b)
                / 1_000_000_000_000,
        )
    } else {
        current
    }
}

/// The rest of the argument after reduction is at most half of `ln 2` in size.
proof fn lemma_exp_rest_small(y: int)
    requires
        0 <= y,
    ensures
        0 <= exp_shift(y),
        -346_574 <= y - exp_shift(y) * LN2 <= 346_574,
        y <= 18_000_000 ==> exp_shift(y) <= 26,
{
    let k = exp_shift(y);
    assert(k * 1_386_294 <= 2 * y + 693_147 < (k + 1) * 1_386_294) by (nonlinear_arith)
        requires
            k == (2 * y + 693_147) / 1_386_294,
    ;
}

/// The powers of two up to the 26th, which is the largest that the
/// exponential needs.
proof fn lemma_two_to_bound(k: int)
    requires
        0 <= k <= 26,
    ensures
        1 <= two_to(k) <= 67_108_864,
        k < 26 ==> two_to(k + 1) == 2 * two_to(k),
    decreases 26 - k,
{
    if k == 26 {
        reveal_with_fuel(two_to, 27);
        assert(two_to(26) == 67_108_864);
    } else {
        lemma_two_to_bound(k + 1);
        lemma_two_to_positive(k);
    }
}

/// Every power of two is at least one.
proof fn lemma_two_to_positive(k: int)
    ensures
        1 <= two_to(k),
    decreases k,
{
    if k > 0 {
        lemma_two_to_positive(k - 1);
    }
}

/// The polynomial stays within fixed bounds on the reduced range.
proof fn lemma_exp_poly_bounds(r: int)
    requires
        -346_574 <= r <= 346_574,
    ensures
        640_000 <= exp_poly(r) <= 1_420_000,
{
    let a = if r < 0 {
        -r
    } else {
        r
    };
    let a2 = a * a / (ONE as int);
    let a3 = a2 * a / (ONE as int);
    let a4 = a3 * a / (ONE as int);
    let a5 = a4 * a / (ONE as int);
    assert(0 <= a * a <= 346_574 * 346_574) by (nonlinear_arith)
        requires
            0 <= a <= 346_574,
    ;
    assert(0 <= a2 <= 120_114);
    assert(0 <= a2 * a <= 120_114 * 346_574) by (nonlinear_arith)
        requires
            0 <= a <= 346_574,
            0 <= a2 <= 120_114,
    ;
    assert(0 <= a3 <= 41_629);
    assert(0 <= a3 * a <= 41_629 * 346_574) by (nonlinear_arith)
        requires
            0 <= a <= 346_574,
            0 <= a3 <= 41_629,
    ;
    assert(0 <= a4 <= 14_428);
    assert(0 <= a4 * a <= 14_428 * 346_574) by (nonlinear_arith)
        requires
            0 <= a <= 346_574,
            0 <= a4 <= 14_428,
    ;
    assert(0 <= a5 <= 5_001);
}

/// The hyperbolic tangent of a non-negative argument stays in the unit interval.
pub proof fn lemma_tanh_bounds(x: int)
    requires
        0 <= x,
    ensures
        0 <= tanh_of(x) <= ONE,
        tanh_of(x) == tanh_magnitude(x),
        tanh_of(-x) == -tanh_of(x),
{
    if x == 0 {
        lemma_tanh_zero();
    }
    if x <= TANH_SATURATION {
        lemma_exp_rest_small(2 * x);
        let k = exp_shift(2 * x);
        let r = 2 * x - k * LN2;
        lemma_exp_poly_bounds(r);
        lemma_two_to_bound(k);
        assert(0 <= exp_poly(r) * two_to(k)) by (nonlinear_arith)
            requires
                0 <= exp_poly(r),
                0 <= two_to(k),
        ;
    }
}

/// The hyperbolic tangent of zero is zero.
pub proof fn lemma_tanh_zero()
    ensures
        tanh_of(0) == 0,
{
    assert((2 * 0 + 693_147int) / 1_386_294int == 0);
    assert(exp_shift(0) == 0);
    assert(exp_poly(0) == ONE) by {
        assert(0int * 0int / 1_000_000 == 0);
    }
    assert(two_to(0) == 1);
    assert(exp_of(0) == ONE) by (nonlinear_arith)
        requires
            exp_of(0) == exp_poly(0) * two_to(0),
            exp_poly(0) == ONE,
            two_to(0) == 1,
    ;
}

/// Scaling by trust never raises a weight and keeps it in the unit interval.
pub proof fn lemma_trust_weight_bounds(current: int, coh_a: int, obs_a: int, coh_b: int, obs_b: int)
    requires
        0 <= current <= ONE,
        0 <= coh_a,
        0 <= coh_b,
    ensures
        0 <= trust_weight(current, coh_a, obs_a, coh_b, obs_b) <= current,
{
    lemma_tanh_bounds(2 * coh_a);
    lemma_tanh_bounds(2 * coh_b);
    let ta = tanh_of(2 * coh_a);
    let tb = tanh_of(2 * coh_b);
    assert(0 <= current * ta * tb <= current * 1_000_000_000_000) by (nonlinear_arith)
        requires
            0 <= current,
            0 <= ta <= 1_000_000,
            0 <= tb <= 1_000_000,
    ;
}

/// The Taylor polynomial of `exp` on the reduced range.
fn exp_polynomial(magnitude: u64, negative: bool) -> (poly: u64)
    requires
        magnitude <= 346_574,
        negative ==> magnitude > 0,
    ensures
        poly == exp_poly(
            if negative {
                -(magnitude as int)
            } else {
                magnitude as int
            },
        ),
        640_000 <= poly <= 1_420_000,
{
    let a: u64 = magnitude;
    proof {
        lemma_exp_poly_bounds(
            if negative {
                -(magnitude as int)
            } else {
                magnitude as int
            },
        );
        assert(0 <= a * a <= 346_574 * 346_574) by (nonlinear_arith)
            requires
                0 <= a <= 346_574,
        ;
    }
    let a2: u64 = a * a / 1_000_000;
    assert(0 <= a2 * a <= 120_114 * 346_574) by (nonlinear_arith)
        requires
            0 <= a <= 346_574,
            0 <= a2 <= 120_114,
    ;
    let a3: u64 = a2 * a / 1_000_000;
    assert(0 <= a3 * a <= 41_629 * 346_574) by (nonlinear_arith)
        requires
            0 <= a <= 346_574,
            0 <= a3 <= 41_629,
    ;
    let a4: u64 = a3 * a / 1_000_000;
    assert(0 <= a4 * a <= 14_428 * 346_574) by (nonlinear_arith)
        requires
            0 <= a <= 346_574,
            0 <= a4 <= 14_428,
    ;
    let a5: u64 = a4 * a / 1_000_000;
    let even: u64 = 1_000_000 + a2 / 2 + a4 / 24;
    let odd: u64 = a + a3 / 6 + a5 / 120;
    if negative {
        even - odd
    } else {
        even + odd
    }
}

/// Approximates `exp(y)` for `0 <= y <= 18`.
fn exp_approx(y: u64) -> (e: u64)
    requires
        y <= 18_000_000,
    ensures
        e == exp_of(y as int),
        e <= 1_420_000 * 67_108_864,
{
    proof {
        lemma_exp_rest_small(y as int);
    }
    let k: u64 = (2 * y + LN2) / (2 * LN2);
    let reduced: u64 = k * LN2;
    let negative: bool = reduced > y;
    let magnitude: u64 = if negative {
        reduced - y
    } else {
        y - reduced
    };
    let poly: u64 = exp_polynomial(magnitude, negative);
    let mut scale: u64 = 1;
    let mut i: u64 = 0;
    while i < k
        invariant
            i <= k <= 26,
            scale == two_to(i as int),
            scale <= 67_108_864,
        decreases k - i,
    {
        proof {
            lemma_two_to_bound(i as int + 1);
        }
        scale = scale * 2;
        i = i + 1;
    }
    assert(poly * scale <= 1_420_000 * 67_108_864) by (nonlinear_arith)
        requires
            0 <= poly <= 1_420_000,
            0 <= scale <= 67_108_864,
    ;
    poly * scale
}

/// Approximates `tanh(x)`.
pub fn boundary_tanh(x: i64) -> (t: i32)
    ensures
        t == tanh_of(x as int),
        -ONE <= t <= ONE,
        x >= 0 ==> t >= 0,
{
    if x < 0 {
        let magnitude: u64 = (-(x + 1)) as u64 + 1;
        let t: u32 = tanh_nonnegative(magnitude);
        -(t as i32)
    } else {
        proof {
            lemma_tanh_bounds(x as int);
        }
        tanh_nonnegative(x as u64) as i32
    }
}

/// Approximates `tanh(x)` for `x >= 0`.
fn tanh_nonnegative(x: u64) -> (t: u32)
    ensures
        t == tanh_magnitude(x as int),
        t <= ONE,
{
    if x > TANH_SATURATION {
        return ONE;
    }
    let e: u64 = exp_approx(2 * x);
    let q: u64 = 2_000_000_000_000 / (e + 1_000_000);
    if q > 1_000_000 {
        0
    } else {
        (1_000_000 - q) as u32
    }
}

/// The weight that trust gives to an edge of weight `current`: edges at or
/// below the threshold are left alone, the others are scaled.
pub open spec fn reweighed(current: int, coh_a: int, obs_a: int, coh_b: int, obs_b: int) -> int {
    if current > EDGE_THRESHOLD {
        trust_weight(current, coh_a, obs_a, coh_b, obs_b)
    } else {
        current
    }
}

/// The weight of the edge from a newly registered context with the given
/// features to the node with the given hash, as the first `upto` reported
/// pairs decide it: the similarity to the last pair that carries this hash
/// and is similar enough, and zero if there is no such pair.
pub open spec fn reported_edge<V: SensorVocabulary<N>, const N: usize>(
    features: Seq<u16>,
    known: Seq<(ContextKey<V, N>, u32)>,
    hash: u32,
    upto: int,
) -> int
    decreases upto,
{
    if upto <= 0 {
        0
    } else {
        let sim = cosine_of(features, known[upto - 1].0.features());
        if known[upto - 1].1 == hash && sim > EDGE_THRESHOLD {
            sim
        } else {
            reported_edge(features, known, hash, upto - 1)
        }
    }
}

/// An edge made at registration is either absent or heavier than the threshold.
pub proof fn lemma_reported_edge_values<V: SensorVocabulary<N>, const N: usize>(
    features: Seq<u16>,
    known: Seq<(ContextKey<V, N>, u32)>,
    hash: u32,
    upto: int,
)
    ensures
        reported_edge(features, known, hash, upto) == 0 || reported_edge(features, known, hash, upto)
            > EDGE_THRESHOLD,
    decreases upto,
{
    if upto > 0 {
        lemma_reported_edge_values(features, known, hash, upto - 1);
    }
}

/// What the graph keeps of one context.
#[derive(Clone, Copy, Debug)]
pub struct NodeData {
    /// Hash of the context, the node's identity.
    pub hash: u32,
    /// Trust last reported for the context.
    pub coherence: u32,
    /// Positive interactions last reported for the context.
    pub observations: u32,
}

/// The context graph and its minimum cut.
pub struct MinCutBoundary<V: SensorVocabulary<N>, const N: usize> {
    nodes: [NodeData; 64],
    node_count: usize,
    adj: [[u32; 64]; 64],
    vocabulary: PhantomData<V>,
}

impl<V: SensorVocabulary<N>, const N: usize> MinCutBoundary<V, N> {
    /// The number of registered nodes.
    pub closed spec fn node_total(&self) -> int {
        self.node_count as int
    }

    /// The hash of node `i`.
    pub closed spec fn hash_at(&self, i: int) -> u32 {
        self.nodes@[i].hash
    }

    /// The trust last reported for node `i`.
    pub closed spec fn coherence_at(&self, i: int) -> u32 {
        self.nodes@[i].coherence
    }

    /// The observations last reported for node `i`.
    pub closed spec fn observations_at(&self, i: int) -> u32 {
        self.nodes@[i].observations
    }

    /// The weight of the edge between nodes `i` and `j`; zero where there is no edge.
    pub closed spec fn weight(&self, i: int, j: int) -> int {
        self.adj@[i]@[j] as int
    }

    /// The weights as a function of two node indices.
    pub open spec fn weights(&self) -> spec_fn(int, int) -> int {
        |i: int, j: int| self.weight(i, j)
    }

    /// Whether a node with this hash is registered.
    pub open spec fn knows(&self, hash: u32) -> bool {
        exists|i: int| 0 <= i < self.node_total() && self.hash_at(i) == hash
    }

    /// The index of the node with this hash.
    pub open spec fn index_of(&self, hash: u32) -> int {
        choose|i: int| 0 <= i < self.node_total() && self.hash_at(i) == hash
    }

    /// Whether the graph is well formed: within capacity, with distinct
    /// hashes, and with symmetric weights in the unit interval that vanish
    /// on the diagonal and outside the registered nodes.
    pub closed spec fn wf(&self) -> bool {
        &&& self.node_count <= MAX_CONTEXTS
        &&& forall|i: int, j: int|
            0 <= i < self.node_count && 0 <= j < self.node_count && i != j ==> self.nodes@[i].hash
                != self.nodes@[j].hash
        &&& forall|i: int, j: int|
            0 <= i < 64 && 0 <= j < 64 ==> #[trigger] self.adj@[i]@[j] <= ONE && self.adj@[i]@[j]
                == self.adj@[j]@[i]
        &&& forall|i: int| 0 <= i < 64 ==> #[trigger] self.adj@[i]@[i] == 0
        &&& forall|i: int, j: int|
            0 <= i < 64 && 0 <= j < 64 && (i >= self.node_count || j >= self.node_count)
                ==> #[trigger] self.adj@[i]@[j] == 0
    }

    /// What well-formedness means for the public view of the graph.
    pub proof fn lemma_wf(&self)
        requires
            self.wf(),
        ensures
            0 <= self.node_total() <= MAX_CONTEXTS,
            forall|i: int, j: int|
                0 <= i < self.node_total() && 0 <= j < self.node_total() && i != j
                    ==> self.hash_at(i) != self.hash_at(j),
            forall|i: int, j: int|
                0 <= i < 64 && 0 <= j < 64 ==> 0 <= #[trigger] self.weight(i, j) <= ONE
                    && self.weight(i, j) == self.weight(j, i),
            forall|i: int| 0 <= i < 64 ==> #[trigger] self.weight(i, i) == 0,
    {
    }

    /// An empty graph.
    pub fn new() -> (graph: Self)
        ensures
            graph.wf(),
            graph.node_total() == 0,
    {
        MinCutBoundary {
            nodes: [NodeData { hash: 0, coherence: 0, observations: 0 };64],
            node_count: 0,
            adj: [[0u32;64];64],
            vocabulary: PhantomData,
        }
    }

    /// The number of registered nodes.
    pub fn node_count(&self) -> (n: usize)
        ensures
            n == self.node_total(),
    {
        self.node_count
    }

    /// The index of the node with this hash, by linear scan.
    fn find_idx(&self, hash: u32) -> (found: Option<usize>)
        requires
            self.node_count <= MAX_CONTEXTS,
        ensures
            found is Some ==> found->0 < self.node_count && self.nodes@[found->0 as int].hash
                == hash,
            found is None ==> forall|i: int|
                0 <= i < self.node_count ==> (#[trigger] self.nodes@[i]).hash != hash,
            found is Some == self.knows(hash),
    {
        let mut i: usize = 0;
        while i < self.node_count
            invariant
                i <= self.node_count <= MAX_CONTEXTS,
                forall|j: int| 0 <= j < i ==> (#[trigger] self.nodes@[j]).hash != hash,
            decreases self.node_count - i,
        {
            if self.nodes[i].hash == hash {
                assert(self.hash_at(i as int) == hash);
                return Some(i);
            }
            i = i + 1;
        }
        assert(!self.knows(hash)) by {
            if self.knows(hash) {
                let w = choose|w: int| 0 <= w < self.node_total() && self.hash_at(w) == hash;
                assert(self.nodes@[w].hash != hash);
            }
        }
        None
    }

    /// Registers a context as a node, with an edge to each known node that
    /// the caller reports and that is similar enough.
    ///
    /// Nothing changes if the context is already registered or the graph is
    /// full. Otherwise the node is appended; the nodes and edges that were
    /// there stay as they were.
    pub fn report_context_with_key(&mut self, key: &ContextKey<V, N>, all_keys: &[(ContextKey<V, N>, u32)])
        requires
            old(self).wf(),
        ensures
            final(self).wf(),
            old(self).knows(fnv1a(key.features())) || old(self).node_total() >= MAX_CONTEXTS ==> *final(self) == *old(self),
            !old(self).knows(fnv1a(key.features())) && old(self).node_total() < MAX_CONTEXTS ==> {
                let n = old(self).node_total();
                &&& final(self).node_total() == n + 1
                &&& final(self).hash_at(n) == fnv1a(key.features())
                &&& final(self).coherence_at(n) == 0
                &&& final(self).observations_at(n) == 0
                &&& forall|i: int|
                    0 <= i < n ==> final(self).hash_at(i) == old(self).hash_at(i) && final(self).coherence_at(i) == old(self).coherence_at(i) && final(self).observations_at(i)
                        == old(self).observations_at(i)
                &&& forall|i: int, j: int|
                    0 <= i < n && 0 <= j < n ==> final(self).weight(i, j) == old(self).weight(i, j)
                &&& forall|j: int|
                    0 <= j < n ==> #[trigger] final(self).weight(n, j) == reported_edge(
                        key.features(),
                        all_keys@,
                        old(self).hash_at(j),
                        all_keys@.len() as int,
                    )
            },
    {
        let hash: u32 = key.context_hash_u32();
        if self.find_idx(hash).is_some() {
            return ;
        }
        if self.node_count >= MAX_CONTEXTS {
            return ;
        }
        let new_idx: usize = self.node_count;
        self.nodes[new_idx] = NodeData { hash, coherence: 0, observations: 0 };
        let mut i: usize = 0;
        while i < all_keys.len()
            invariant
                i <= all_keys@.len(),
                new_idx == self.node_count == old(self).node_count,
                new_idx < MAX_CONTEXTS,
                hash == fnv1a(key.features()),
                old(self).wf(),
                self.nodes@ == old(self).nodes@.update(
                    new_idx as int,
                    NodeData { hash, coherence: 0, observations: 0 },
                ),
                forall|a: int| 0 <= a < new_idx ==> (#[trigger] old(self).nodes@[a]).hash != hash,
                forall|a: int, b: int|
                    0 <= a < 64 && 0 <= b < 64 ==> #[trigger] self.adj@[a]@[b] <= ONE
                        && self.adj@[a]@[b] == self.adj@[b]@[a],
                forall|a: int, b: int|
                    0 <= a < 64 && 0 <= b < 64 && a != new_idx && b != new_idx
                        ==> #[trigger] self.adj@[a]@[b] == old(self).adj@[a]@[b],
                forall|a: int|
                    new_idx <= a < 64 ==> #[trigger] self.adj@[new_idx as int]@[a] == 0,
                forall|b: int|
                    0 <= b < new_idx ==> #[trigger] self.adj@[new_idx as int]@[b] == reported_edge(
                        key.features(),
                        all_keys@,
                        old(self).nodes@[b].hash,
                        i as int,
                    ),
            decreases all_keys@.len() - i,
        {
            let other_hash: u32 = all_keys[i].1;
            let ghost prev = self.adj@;
            let ghost target: int = -1;
            if other_hash != hash {
                match self.find_idx(other_hash) {
                    Some(other_idx) => {
                        let sim: u32 = key.cosine_similarity(&all_keys[i].0);
                        proof {
                            target = other_idx as int;
                        }
                        if sim > EDGE_THRESHOLD {
                            self.adj[new_idx][other_idx] = sim;
                            self.adj[other_idx][new_idx] = sim;
                        }
                    },
                    None => {},
                }
            }
            proof {
                assert forall|b: int| 0 <= b < new_idx implies #[trigger] self.adj@[new_idx as int]@[b]
                    == reported_edge(
                    key.features(),
                    all_keys@,
                    old(self).nodes@[b].hash,
                    i as int + 1,
                ) by {
                    assert(prev[new_idx as int]@[b] == reported_edge(
                        key.features(),
                        all_keys@,
                        old(self).nodes@[b].hash,
                        i as int,
                    ));
                    assert(self.nodes@[b] == old(self).nodes@[b]);
                    if b != target {
                        assert(old(self).nodes@[b].hash != other_hash);
                    }
                }
            }
            i = i + 1;
        }
        self.node_count = self.node_count + 1;
    }

    /// Records the trust data of a context and scales by trust every edge
    /// at that node whose weight exceeds the threshold.
    ///
    /// Nothing changes if the context is not registered.
    pub fn update_trust(&mut self, key: &ContextKey<V, N>, coherence: u32, observations: u32)
        requires
            old(self).wf(),
        ensures
            final(self).wf(),
            !old(self).knows(fnv1a(key.features())) ==> *final(self) == *old(self),
            old(self).knows(fnv1a(key.features())) ==> {
                let n = old(self).node_total();
                let idx = old(self).index_of(fnv1a(key.features()));
                &&& final(self).node_total() == n
                &&& final(self).coherence_at(idx) == coherence
                &&& final(self).observations_at(idx) == observations
                &&& forall|i: int| 0 <= i < n ==> final(self).hash_at(i) == old(self).hash_at(i)
                &&& forall|i: int|
                    0 <= i < n && i != idx ==> final(self).coherence_at(i) == old(self).coherence_at(
                        i,
                    ) && final(self).observations_at(i) == old(self).observations_at(i)
                &&& forall|i: int, j: int|
                    0 <= i < n && 0 <= j < n && i != idx && j != idx ==> final(self).weight(i, j)
                        == old(self).weight(i, j)
                &&& forall|j: int|
                    0 <= j < n && j != idx ==> #[trigger] final(self).weight(idx, j) == reweighed(
                        old(self).weight(idx, j),
                        coherence as int,
                        observations as int,
                        old(self).coherence_at(j) as int,
                        old(self).observations_at(j) as int,
                    )
            },
    {
        let hash: u32 = key.context_hash_u32();
        let idx: usize = match self.find_idx(hash) {
            Some(idx) => idx,
            None => {
                return ;
            },
        };
        proof {
            let chosen = old(self).index_of(hash);
            assert(old(self).hash_at(idx as int) == hash);
            assert(chosen == idx);
        }
        self.nodes[idx] = NodeData { hash, coherence, observations };
        let t_self: u32 = tanh_nonnegative(2 * (coherence as u64));
        let mut other_idx: usize = 0;
        while other_idx < self.node_count
            invariant
                other_idx <= self.node_count == old(self).node_count <= MAX_CONTEXTS,
                idx < self.node_count,
                old(self).wf(),
                t_self == tanh_of(2 * coherence),
                t_self <= ONE,
                self.nodes@ == old(self).nodes@.update(
                    idx as int,
                    NodeData { hash, coherence, observations },
                ),
                forall|a: int, b: int|
                    0 <= a < 64 && 0 <= b < 64 ==> #[trigger] self.adj@[a]@[b] <= ONE
                        && self.adj@[a]@[b] == self.adj@[b]@[a],
                forall|a: int, b: int|
                    0 <= a < 64 && 0 <= b < 64 && a != idx && b != idx ==> #[trigger] self.adj@[a]@[b]
                        == old(self).adj@[a]@[b],
                forall|b: int|
                    other_idx <= b < 64 ==> #[trigger] self.adj@[idx as int]@[b] == old(self).adj@[idx as int]@[b],
                forall|b: int|
                    0 <= b < other_idx && b != idx ==> #[trigger] self.adj@[idx as int]@[b]
                        == reweighed(
                        old(self).adj@[idx as int]@[b] as int,
                        coherence as int,
                        observations as int,
                        old(self).nodes@[b].coherence as int,
                        old(self).nodes@[b].observations as int,
                    ),
                0 <= idx < other_idx ==> self.adj@[idx as int]@[idx as int] == 0,
            decreases self.node_count - other_idx,
        {
            if other_idx != idx {
                let current_weight: u32 = self.adj[idx][other_idx];
                if current_weight > EDGE_THRESHOLD {
                    let other: NodeData = self.nodes[other_idx];
                    let weight: u32 = if observations >= MIN_TRUST_OBSERVATIONS && other.observations
                        >= MIN_TRUST_OBSERVATIONS {
                        let t_other: u32 = tanh_nonnegative(2 * (other.coherence as u64));
                        scale_weight(current_weight, t_self, t_other)
                    } else {
                        current_weight
                    };
                    proof {
                        lemma_trust_weight_bounds(
                            current_weight as int,
                            coherence as int,
                            observations as int,
                            other.coherence as int,
                            other.observations as int,
                        );
                    }
                    self.adj[idx][other_idx] = weight;
                    self.adj[other_idx][idx] = weight;
                }
            }
            other_idx = other_idx + 1;
        }
    }
}

impl<V: SensorVocabulary<N>, const N: usize> Default for MinCutBoundary<V, N> {
    fn default() -> (graph: Self)
        ensures
            graph.wf(),
            graph.node_total() == 0,
    {
        MinCutBoundary::new()
    }
}

/// The product of a weight and two factors of the unit interval.
fn scale_weight(current: u32, t_a: u32, t_b: u32) -> (scaled: u32)
    requires
        current <= ONE,
        t_a <= ONE,
        t_b <= ONE,
    ensures
        scaled == clamp_unit(current * t_a * t_b / 1_000_000_000_000),
        scaled <= current,
{
    assert(0 <= current * t_a <= 1_000_000 * 1_000_000 && current * t_a <= current * 1_000_000)
        by (nonlinear_arith)
        requires
            0 <= current <= 1_000_000,
            0 <= t_a <= 1_000_000,
    ;
    let first: u64 = current as u64 * t_a as u64;
    assert(0 <= first * t_b <= 1_000_000_000_000 * 1_000_000 && first * t_b <= first * 1_000_000)
        by (nonlinear_arith)
        requires
            0 <= first <= 1_000_000_000_000,
            0 <= t_b <= 1_000_000,
    ;
    let product: u64 = first * t_b as u64;
    let scaled: u64 = product / 1_000_000_000_000;
    scaled as u32
}

/// A minimum cut: its weight and the node hashes on either side.
#[derive(Clone, Copy, Debug)]
pub struct MinCutResult {
    /// Weight of the minimum cut.
    pub min_cut_value: u64,
    /// Number of entries of `partition_s` in use.
    pub partition_s_count: usize,
    /// Hashes of the contexts on one side, in registration order.
    pub partition_s: [u32; 64],
    /// Number of entries of `partition_complement` in use.
    pub partition_complement_count: usize,
    /// Hashes of the contexts on the other side, in registration order.
    pub partition_complement: [u32; 64],
}

impl MinCutResult {
    /// The hashes on the first side.
    pub open spec fn s_side(&self) -> Seq<u32> {
        self.partition_s@.take(self.partition_s_count as int)
    }

    /// The hashes on the other side.
    pub open spec fn complement_side(&self) -> Seq<u32> {
        self.partition_complement@.take(self.partition_complement_count as int)
    }
}

impl<V: SensorVocabulary<N>, const N: usize> MinCutBoundary<V, N> {
    /// The hashes of the nodes below `k` that are in `side`, in registration order.
    pub open spec fn side_hashes(&self, side: Set<int>, k: int) -> Seq<u32>
        decreases k,
    {
        if k <= 0 {
            Seq::empty()
        } else if side.contains(k - 1) {
            self.side_hashes(side, k - 1).push(self.hash_at(k - 1))
        } else {
            self.side_hashes(side, k - 1)
        }
    }

    /// The weight of the cut that separates the nodes of `side` from the rest.
    pub open spec fn cut_weight(&self, side: Set<int>) -> int {
        cut_weight(self.weights(), self.node_total(), side)
    }

    /// Whether `value` is the weight of a minimum cut of the graph: some
    /// cut has this weight and no cut has less.
    pub open spec fn is_min_cut_weight(&self, value: int) -> bool {
        &&& exists|side: Set<int>| #[trigger]
            is_side(self.node_total(), side) && value == self.cut_weight(side)
        &&& forall|side: Set<int>| #[trigger]
            is_side(self.node_total(), side) ==> value <= self.cut_weight(side)
    }

    /// Whether `result` describes the cut with `side` on its first side:
    /// the hashes of `side`, the hashes of the rest, and the weight between them.
    pub open spec fn describes(&self, result: MinCutResult, side: Set<int>) -> bool {
        &&& result.partition_s_count <= 64
        &&& result.partition_complement_count <= 64
        &&& result.s_side() == self.side_hashes(side, self.node_total())
        &&& result.complement_side() == self.side_hashes(
            rest_of(self.node_total(), side),
            self.node_total(),
        )
        &&& result.min_cut_value == self.cut_weight(side)
        &&& forall|i: int|
            result.partition_s_count <= i < 64 ==> #[trigger] result.partition_s@[i] == 0
        &&& forall|i: int|
            result.partition_complement_count <= i < 64 ==> #[trigger] result.partition_complement@[i]
                == 0
    }

    /// Builds the result for a cut given by the bit mask of its first side.
    fn result_for(&self, value: u64, mask: u64) -> (result: MinCutResult)
        requires
            self.wf(),
            value == self.cut_weight(mask_set(mask)),
        ensures
            self.describes(result, mask_set(mask)),
            result.partition_s_count + result.partition_complement_count == self.node_total(),
    {
        let mut result: MinCutResult = MinCutResult {
            min_cut_value: value,
            partition_s_count: 0,
            partition_s: [0u32;64],
            partition_complement_count: 0,
            partition_complement: [0u32;64],
        };
        let ghost side = mask_set(mask);
        let ghost rest = rest_of(self.node_total(), side);
        let mut i: usize = 0;
        while i < self.node_count
            invariant
                i <= self.node_count <= 64,
                side == mask_set(mask),
                rest == rest_of(self.node_total(), side),
                result.min_cut_value == value,
                result.partition_s_count + result.partition_complement_count == i,
                result.s_side() == self.side_hashes(side, i as int),
                result.complement_side() == self.side_hashes(rest, i as int),
                forall|k: int|
                    result.partition_s_count <= k < 64 ==> #[trigger] result.partition_s@[k] == 0,
                forall|k: int|
                    result.partition_complement_count <= k < 64
                        ==> #[trigger] result.partition_complement@[k] == 0,
            decreases self.node_count - i,
        {
            let hash: u32 = self.nodes[i].hash;
            let ghost before = result;
            if (mask >> (i as u64)) & 1u64 == 1u64 {
                result.partition_s[result.partition_s_count] = hash;
                result.partition_s_count = result.partition_s_count + 1;
                proof {
                    assert(side.contains(i as int));
                    assert(!rest.contains(i as int));
                    assert(result.s_side() =~= before.s_side().push(hash));
                    assert(result.complement_side() =~= before.complement_side());
                }
            } else {
                result.partition_complement[result.partition_complement_count] = hash;
                result.partition_complement_count = result.partition_complement_count + 1;
                proof {
                    assert(!side.contains(i as int));
                    assert(rest.contains(i as int));
                    assert(result.complement_side() =~= before.complement_side().push(hash));
                    assert(result.s_side() =~= before.s_side());
                }
            }
            i = i + 1;
        }
        result
    }

    /// The weights of the adjacency matrix are the weights of the graph.
    proof fn lemma_weights(&self)
        requires
            self.wf(),
        ensures
            weights_of(self.adj) == self.weights(),
            weights_within(self.weights(), self.node_total(), ONE as int),
            weights_symmetric(self.weights(), self.node_total()),
    {
        assert(weights_of(self.adj) =~= self.weights());
        assert forall|i: int, j: int|
            0 <= i < self.node_total() && 0 <= j < self.node_total() implies #[trigger] (
        self.weights())(i, j) == (self.weights())(j, i) by {
            assert(self.adj@[i]@[j] == self.adj@[j]@[i]);
        }
        assert forall|i: int, j: int|
            0 <= i < self.node_total() && 0 <= j < self.node_total() implies 0 <= #[trigger] (
        self.weights())(i, j) <= ONE by {
            assert(self.adj@[i]@[j] <= ONE);
        }
    }

    /// The weight of the minimum cut; zero for a graph of fewer than two nodes.
    pub fn min_cut_value(&self) -> (value: u64)
        requires
            self.wf(),
        ensures
            self.node_total() < 2 ==> value == 0,
            self.node_total() >= 2 ==> self.is_min_cut_weight(value as int),
    {
        if self.node_count < 2 {
            return 0;
        }
        proof {
            self.lemma_weights();
        }
        let (value, mask) = stoer_wagner(&self.adj, self.node_count);
        assert(is_side(self.node_total(), mask_set(mask)) && value == self.cut_weight(mask_set(mask)));
        value
    }

    /// The minimum cut: its weight and the hashes on either side.
    ///
    /// A graph of fewer than two nodes has no cut: the weight is zero, the
    /// first side is empty and the other side holds every node.
    pub fn partition(&self) -> (result: MinCutResult)
        requires
            self.wf(),
        ensures
            result.partition_s_count + result.partition_complement_count == self.node_total(),
            self.node_total() < 2 ==> result.min_cut_value == 0 && result.partition_s_count == 0
                && self.describes(result, Set::empty()),
            self.node_total() >= 2 ==> self.is_min_cut_weight(result.min_cut_value as int),
            self.node_total() >= 2 ==> exists|side: Set<int>| #[trigger]
                is_side(self.node_total(), side) && self.describes(result, side),
    {
        proof {
            self.lemma_weights();
        }
        if self.node_count < 2 {
            proof {
                assert(mask_set(0u64) =~= Set::<int>::empty()) by {
                    assert forall|i: int| 0 <= i < 64 implies !crate::stoer_wagner::bit(0u64, i) by {
                        lemma_zero_mask(i as u64);
                    }
                }
                crate::cut::lemma_between_empty_to(
                    self.weights(),
                    self.node_total(),
                    rest_of(self.node_total(), Set::empty()),
                    self.node_total(),
                );
            }
            let result: MinCutResult = self.result_for(0, 0);
            proof {
                self.lemma_side_hashes_empty(self.node_total());
                assert(result.s_side().len() == 0);
            }
            return result;
        }
        let (value, mask) = stoer_wagner(&self.adj, self.node_count);
        let result: MinCutResult = self.result_for(value, mask);
        assert(is_side(self.node_total(), mask_set(mask)) && self.describes(result, mask_set(mask)));
        result
    }
}

impl<V: SensorVocabulary<N>, const N: usize> MinCutBoundary<V, N> {
    /// The hashes listed for a side are the hashes of its nodes, no more
    /// and no fewer, and none of them twice.
    pub proof fn lemma_side_hashes(&self, side: Set<int>, k: int)
        requires
            self.wf(),
            0 <= k <= self.node_total(),
        ensures
            forall|i: int|
                0 <= i < k && side.contains(i) ==> self.side_hashes(side, k).contains(
                    #[trigger] self.hash_at(i),
                ),
            forall|h: u32| #[trigger]
                self.side_hashes(side, k).contains(h) ==> exists|i: int|
                    0 <= i < k && side.contains(i) && self.hash_at(i) == h,
            self.side_hashes(side, k).no_duplicates(),
            self.side_hashes(side, k).len() <= k,
        decreases k,
    {
        if k > 0 {
            self.lemma_side_hashes(side, k - 1);
            let before = self.side_hashes(side, k - 1);
            let now = self.side_hashes(side, k);
            if side.contains(k - 1) {
                let h = self.hash_at(k - 1);
                assert(now == before.push(h));
                assert(now[now.len() - 1] == h);
                assert forall|i: int| 0 <= i < k && side.contains(i) implies now.contains(
                    #[trigger] self.hash_at(i),
                ) by {
                    if i < k - 1 {
                        let at = choose|at: int| 0 <= at < before.len() && before[at] == self.hash_at(i);
                        assert(now[at] == self.hash_at(i));
                    }
                }
                assert forall|g: u32| #[trigger] now.contains(g) implies exists|i: int|
                    0 <= i < k && side.contains(i) && self.hash_at(i) == g by {
                    let at = choose|at: int| 0 <= at < now.len() && now[at] == g;
                    if at < before.len() {
                        assert(before.contains(g));
                        let i = choose|i: int| 0 <= i < k - 1 && side.contains(i) && self.hash_at(i) == g;
                        assert(0 <= i < k && side.contains(i) && self.hash_at(i) == g);
                    } else {
                        assert(self.hash_at(k - 1) == g);
                    }
                }
                assert(now.no_duplicates()) by {
                    assert forall|p: int, q: int| 0 <= p < q < now.len() implies now[p] != now[q] by {
                        if q == now.len() - 1 {
                            assert(before.contains(now[p]));
                            let i = choose|i: int|
                                0 <= i < k - 1 && side.contains(i) && self.hash_at(i) == now[p];
                            assert(self.hash_at(i) != self.hash_at(k - 1));
                        } else {
                            assert(before[p] != before[q]);
                        }
                    }
                }
            }
        }
    }

    /// The empty side lists no hash.
    pub proof fn lemma_side_hashes_empty(&self, k: int)
        ensures
            self.side_hashes(Set::empty(), k) == Seq::<u32>::empty(),
        decreases k,
    {
        if k > 0 {
            self.lemma_side_hashes_empty(k - 1);
        }
    }

    /// A partition covers every registered node exactly once: the hash of
    /// each node stands on exactly one of the two sides, neither side lists
    /// a hash twice, and nothing else is listed.
    pub proof fn lemma_partition_covers(&self, result: MinCutResult, side: Set<int>)
        requires
            self.wf(),
            self.describes(result, side),
        ensures
            forall|i: int|
                0 <= i < self.node_total() ==> (result.s_side().contains(#[trigger] self.hash_at(i))
                    <==> !result.complement_side().contains(self.hash_at(i))),
            forall|i: int|
                0 <= i < self.node_total() ==> (result.s_side().contains(#[trigger] self.hash_at(i))
                    <==> side.contains(i)),
            forall|h: u32|
                result.s_side().contains(h) || result.complement_side().contains(h) ==> self.knows(h),
            result.s_side().no_duplicates(),
            result.complement_side().no_duplicates(),
    {
        let n = self.node_total();
        let rest = rest_of(n, side);
        self.lemma_side_hashes(side, n);
        self.lemma_side_hashes(rest, n);
        assert forall|i: int| 0 <= i < n implies (result.s_side().contains(#[trigger] self.hash_at(i))
            <==> side.contains(i)) && (result.complement_side().contains(self.hash_at(i))
            <==> !side.contains(i)) by {
            let h = self.hash_at(i);
            if result.s_side().contains(h) {
                let j = choose|j: int| 0 <= j < n && side.contains(j) && self.hash_at(j) == h;
                assert(j == i);
            }
            if result.complement_side().contains(h) {
                let j = choose|j: int| 0 <= j < n && rest.contains(j) && self.hash_at(j) == h;
                assert(j == i);
            }
            if !side.contains(i) {
                assert(rest.contains(i));
            }
        }
        assert forall|h: u32|
            result.s_side().contains(h) || result.complement_side().contains(h) implies self.knows(
            h,
        ) by {
            if result.s_side().contains(h) {
                let j = choose|j: int| 0 <= j < n && side.contains(j) && self.hash_at(j) == h;
                assert(0 <= j < n && self.hash_at(j) == h);
            } else {
                let j = choose|j: int| 0 <= j < n && rest.contains(j) && self.hash_at(j) == h;
                assert(0 <= j < n && self.hash_at(j) == h);
            }
        }
    }

    /// A graph has one minimum cut weight: what [`MinCutBoundary::min_cut_value`]
    /// returns is what [`MinCutBoundary::partition`] reports.
    pub proof fn lemma_min_cut_weight_unique(&self, v1: int, v2: int)
        requires
            self.is_min_cut_weight(v1),
            self.is_min_cut_weight(v2),
        ensures
            v1 == v2,
    {
        let s1 = choose|side: Set<int>| #[trigger]
            is_side(self.node_total(), side) && v1 == self.cut_weight(side);
        let s2 = choose|side: Set<int>| #[trigger]
            is_side(self.node_total(), side) && v2 == self.cut_weight(side);
        assert(is_side(self.node_total(), s1) ==> v2 <= self.cut_weight(s1));
        assert(is_side(self.node_total(), s2) ==> v1 <= self.cut_weight(s2));
    }
}

proof fn lemma_zero_mask(i: u64)
    by (bit_vector)
    requires
        i < 64,
    ensures
        (0u64 >> i) & 1u64 != 1u64,
{
}

} // verus!
