//! Context identity: feature vector, stable hash and similarity.
//!
//! A vocabulary turns one sensor snapshot into a fixed-length vector of
//! quantised features, each a `u16` that stands for `q / 65535` in the unit
//! interval. Two snapshots with the same feature vector are the same context.

use vstd::prelude::*;
use crate::units::ONE;
use crate::wide::{wide_limit, Wide};

verus! {

/// A platform's sensor vocabulary of dimension `N`.
///
/// An implementor encodes one sensor snapshot as `N` quantised features.
/// Nothing is assumed of an implementation: a [`ContextKey`] asks for the
/// feature vector once, when it is made, and everything that is stated of
/// the key is stated of the vector it then holds.
pub trait SensorVocabulary<const N: usize>: Sized {
    /// The dimension of the feature vector.
    const FEATURE_DIM: usize = N;

    /// Encodes this snapshot as its quantised feature vector.
    fn to_feature_vec(&self) -> [u16; N];
}

/// The offset basis of 32-bit FNV-1a.
pub const FNV_OFFSET_BASIS: u32 = 2_166_136_261;

/// The prime of 32-bit FNV-1a.
pub const FNV_PRIME: u32 = 16_777_619;

/// One round of FNV-1a: mix in one quantised feature, then multiply modulo 2^32.
pub open spec fn fnv1a_step(h: u32, q: u16) -> u32 {
    (((h ^ (q as u32)) as int * (FNV_PRIME as int)) % 0x1_0000_0000) as u32
}

/// FNV-1a over the first `n` quantised features.
pub open spec fn fnv1a_prefix(q: Seq<u16>, n: int) -> u32
    decreases n,
{
    if n <= 0 {
        FNV_OFFSET_BASIS
    } else {
        fnv1a_step(fnv1a_prefix(q, n - 1), q[n - 1])
    }
}

/// FNV-1a over a whole quantised feature vector.
pub open spec fn fnv1a(q: Seq<u16>) -> u32 {
    fnv1a_prefix(q, q.len() as int)
}

/// The sum of `a[i] * b[i]` over the first `n` indices.
pub open spec fn dot_prefix(a: Seq<u16>, b: Seq<u16>, n: int) -> int
    decreases n,
{
    if n <= 0 {
        0
    } else {
        dot_prefix(a, b, n - 1) + (a[n - 1] as int) * (b[n - 1] as int)
    }
}

/// The inner product of two feature vectors of equal length.
pub open spec fn dot(a: Seq<u16>, b: Seq<u16>) -> int {
    dot_prefix(a, b, a.len() as int)
}

/// Whether `s / ONE` is at most the cosine of the angle between `a` and `b`,
/// stated without a square root: `s^2 * |a|^2 * |b|^2 <= ONE^2 * (a.b)^2`,
/// where `ONE^2` is `10^12`.
pub open spec fn at_most_cosine(s: int, a: Seq<u16>, b: Seq<u16>) -> bool {
    s * s * (dot(a, a) * dot(b, b)) <= 1_000_000_000_000 * (dot(a, b) * dot(a, b))
}

/// Whether `s` is the cosine similarity of `a` and `b` in fixed point:
/// zero when either vector is zero, and otherwise the largest `s` in the unit
/// interval with `s / ONE <= cos(a, b)`.
pub open spec fn is_cosine(s: int, a: Seq<u16>, b: Seq<u16>) -> bool {
    if dot(a, a) == 0 || dot(b, b) == 0 {
        s == 0
    } else {
        &&& 0 <= s <= ONE
        &&& at_most_cosine(s, a, b)
        &&& s < ONE ==> !at_most_cosine(s + 1, a, b)
    }
}

/// The cosine similarity of two feature vectors in fixed point.
pub open spec fn cosine_of(a: Seq<u16>, b: Seq<u16>) -> int {
    choose|s: int| is_cosine(s, a, b)
}

/// Every prefix of an inner product is bounded by its length.
pub proof fn lemma_dot_prefix_bound(a: Seq<u16>, b: Seq<u16>, n: int)
    requires
        0 <= n <= a.len(),
        n <= b.len(),
    ensures
        0 <= dot_prefix(a, b, n) <= n * 4_294_836_225,
    decreases n,
{
    if n > 0 {
        lemma_dot_prefix_bound(a, b, n - 1);
        let x = a[n - 1] as int;
        let y = b[n - 1] as int;
        assert(0 <= x * y <= 4_294_836_225) by (nonlinear_arith)
            requires
                0 <= x <= 65535,
                0 <= y <= 65535,
        ;
    }
}

/// Only one value is the cosine similarity of two given vectors.
pub proof fn lemma_cosine_unique(s: int, t: int, a: Seq<u16>, b: Seq<u16>)
    requires
        is_cosine(s, a, b),
        is_cosine(t, a, b),
    ensures
        s == t,
{
    if dot(a, a) != 0 && dot(b, b) != 0 {
        let m = dot(a, a) * dot(b, b);
        lemma_dot_prefix_bound(a, a, a.len() as int);
        lemma_dot_prefix_bound(b, b, b.len() as int);
        assert(0 <= m) by (nonlinear_arith)
            requires
                m == dot(a, a) * dot(b, b),
                0 <= dot(a, a),
                0 <= dot(b, b),
        ;
        if s < t {
            assert((s + 1) * (s + 1) * m <= t * t * m) by (nonlinear_arith)
                requires
                    0 <= s,
                    s + 1 <= t,
                    0 <= m,
            ;
        }
        if t < s {
            assert((t + 1) * (t + 1) * m <= s * s * m) by (nonlinear_arith)
                requires
                    0 <= t,
                    t + 1 <= s,
                    0 <= m,
            ;
        }
    }
}

/// A context: one snapshot of a sensor vocabulary, with the quantised
/// feature vector that identifies it.
#[derive(Clone, Debug, PartialEq, Eq, Hash)]
pub struct ContextKey<V: SensorVocabulary<N>, const N: usize> {
    /// The sensor snapshot that this key was made from.
    pub vocabulary: V,
    features: [u16; N],
}

impl<V: SensorVocabulary<N>, const N: usize> ContextKey<V, N> {
    /// The quantised feature vector that identifies this context.
    pub closed spec fn features(&self) -> Seq<u16> {
        self.features@
    }

    /// The sensor snapshot that this key was made from.
    pub closed spec fn snapshot(&self) -> V {
        self.vocabulary
    }

    /// A feature vector has `N` entries.
    pub proof fn lemma_feature_dim(&self)
        ensures
            self.features().len() == N,
    {
    }

    /// Makes the key of a sensor snapshot, asking the snapshot for its
    /// feature vector.
    pub fn new(vocabulary: V) -> (key: Self)
        ensures
            key.snapshot() == vocabulary,
            key.features().len() == N,
            exists|encoded: [u16; N]|
                encoded@ == key.features() && #[trigger] call_ensures(
                    V::to_feature_vec,
                    (&vocabulary,),
                    encoded,
                ),
    {
        let features: [u16; N] = vocabulary.to_feature_vec();
        assert(call_ensures(V::to_feature_vec, (&vocabulary,), features));
        ContextKey { vocabulary, features }
    }

    /// Makes the key of a sensor snapshot whose feature vector is given.
    pub fn with_features(vocabulary: V, features: [u16; N]) -> (key: Self)
        ensures
            key.snapshot() == vocabulary,
            key.features() == features@,
    {
        ContextKey { vocabulary, features }
    }

    /// The quantised feature vector, as an owned vector.
    pub fn feature_vec(&self) -> (v: Vec<u16>)
        ensures
            v@ == self.features(),
            v@.len() == N,
    {
        let mut v: Vec<u16> = Vec::new();
        let mut i: usize = 0;
        while i < N
            invariant
                i <= N,
                v@.len() == i,
                self.features@.len() == N,
                forall|j: int| 0 <= j < i ==> v@[j] == self.features@[j],
            decreases N - i,
        {
            v.push(self.features[i]);
            i = i + 1;
        }
        assert(v@ =~= self.features@);
        v
    }

    /// Deterministic 32-bit FNV-1a hash of the quantised feature vector.
    pub fn context_hash_u32(&self) -> (h: u32)
        ensures
            h == fnv1a(self.features()),
    {
        hash_features(self.features.as_slice())
    }

    /// Cosine similarity of two contexts, in the unit interval.
    pub fn cosine_similarity(&self, other: &Self) -> (sim: u32)
        ensures
            is_cosine(sim as int, self.features(), other.features()),
            sim == cosine_of(self.features(), other.features()),
            sim <= ONE,
    {
        let ab: u128 = inner_product(&self.features, &other.features);
        let aa: u128 = inner_product(&self.features, &self.features);
        let bb: u128 = inner_product(&other.features, &other.features);
        let sim: u32 = cosine_from_products(ab, aa, bb, Ghost(self.features@), Ghost(other.features@));
        proof {
            lemma_cosine_unique(
                sim as int,
                cosine_of(self.features@, other.features@),
                self.features@,
                other.features@,
            );
        }
        sim
    }
}

/// The 32-bit FNV-1a hash of a quantised feature vector.
pub fn hash_features(features: &[u16]) -> (h: u32)
    ensures
        h == fnv1a(features@),
{
    let mut h: u32 = FNV_OFFSET_BASIS;
    let mut i: usize = 0;
    while i < features.len()
        invariant
            i <= features@.len(),
            h == fnv1a_prefix(features@, i as int),
        decreases features@.len() - i,
    {
        let mixed: u32 = h ^ (features[i] as u32);
        h = mixed.wrapping_mul(FNV_PRIME);
        i = i + 1;
    }
    h
}

/// The inner product of two quantised feature vectors: below two to the
/// power of 96, whatever the dimension.
fn inner_product<const N: usize>(a: &[u16; N], b: &[u16; N]) -> (d: u128)
    ensures
        d == dot(a@, b@),
        d < 0x1_0000_0000_0000_0000_0000_0000,
{
    let mut d: u128 = 0;
    let mut i: usize = 0;
    while i < N
        invariant
            i <= N,
            a@.len() == N,
            b@.len() == N,
            d == dot_prefix(a@, b@, i as int),
            d <= i * 4_294_836_225,
        decreases N - i,
    {
        let x: u128 = a[i] as u128;
        let y: u128 = b[i] as u128;
        assert(x * y <= 4_294_836_225) by (nonlinear_arith)
            requires
                0 <= x <= 65535,
                0 <= y <= 65535,
        ;
        d = d + x * y;
        i = i + 1;
    }
    d
}

/// Finds the fixed-point cosine from the three inner products by bisection.
fn cosine_from_products(ab: u128, aa: u128, bb: u128, Ghost(a): Ghost<Seq<u16>>, Ghost(b): Ghost<
    Seq<u16>,
>) -> (sim: u32)
    requires
        ab == dot(a, b),
        aa == dot(a, a),
        bb == dot(b, b),
        ab < 0x1_0000_0000_0000_0000_0000_0000,
        aa < 0x1_0000_0000_0000_0000_0000_0000,
        bb < 0x1_0000_0000_0000_0000_0000_0000,
    ensures
        is_cosine(sim as int, a, b),
        sim <= ONE,
{
    if aa == 0 || bb == 0 {
        return 0;
    }
    let norms: Wide = Wide::product(aa, bb);
    let ab_sq: Wide = Wide::product(ab, ab);
    proof {
        lemma_scaled_fits(1_000_000_000_000, ab as int, ab as int);
    }
    let rhs: Wide = ab_sq.scaled(1_000_000_000_000);
    let mut lo: u32 = 0;
    let mut hi: u32 = ONE + 1;
    assert(at_most_cosine(0, a, b)) by {
        let m = dot(a, a) * dot(b, b);
        let d = dot(a, b) * dot(a, b);
        assert(0 * 0 * m == 0) by (nonlinear_arith);
        assert(0 <= d) by (nonlinear_arith)
            requires
                d == dot(a, b) * dot(a, b),
        ;
    }
    while hi - lo > 1
        invariant
            0 <= lo < hi <= ONE + 1,
            aa == dot(a, a),
            bb == dot(b, b),
            aa < 0x1_0000_0000_0000_0000_0000_0000,
            bb < 0x1_0000_0000_0000_0000_0000_0000,
            norms.value() == dot(a, a) * dot(b, b),
            rhs.value() == 1_000_000_000_000 * (dot(a, b) * dot(a, b)),
            at_most_cosine(lo as int, a, b),
            hi <= ONE ==> !at_most_cosine(hi as int, a, b),
        decreases hi - lo,
    {
        let mid: u32 = lo + (hi - lo) / 2;
        assert(mid as int * mid as int <= 1_000_000 * 1_000_000) by (nonlinear_arith)
            requires
                0 <= mid <= 1_000_000,
        ;
        let mid_sq: u64 = (mid as u64) * (mid as u64);
        proof {
            lemma_scaled_fits(mid_sq as int, aa as int, bb as int);
        }
        let lhs: Wide = norms.scaled(mid_sq);
        assert(lhs.value() == (mid as int) * (mid as int) * (dot(a, a) * dot(b, b)));
        if lhs.at_most(&rhs) {
            lo = mid;
        } else {
            hi = mid;
        }
    }
    lo
}

/// A product of two inner products, scaled by at most the square of one in
/// fixed point, stays below two to the power of 256.
proof fn lemma_scaled_fits(k: int, x: int, y: int)
    requires
        0 <= k <= 1_000_000_000_000,
        0 <= x < 0x1_0000_0000_0000_0000_0000_0000,
        0 <= y < 0x1_0000_0000_0000_0000_0000_0000,
    ensures
        k * (x * y) < wide_limit(),
{
    let top = 0xffff_ffff_ffff_ffff_ffff_ffffint;
    assert(0 <= x * y <= top * top) by (nonlinear_arith)
        requires
            0 <= x <= top,
            0 <= y <= top,
    ;
    assert(k * (x * y) <= 1_000_000_000_000 * (top * top)) by (nonlinear_arith)
        requires
            0 <= k <= 1_000_000_000_000,
            0 <= x * y <= top * top,
    ;
}

/// The inner product does not depend on the order of its arguments.
pub proof fn lemma_dot_symmetric(a: Seq<u16>, b: Seq<u16>, n: int)
    ensures
        dot_prefix(a, b, n) == dot_prefix(b, a, n),
    decreases n,
{
    if n > 0 {
        lemma_dot_symmetric(a, b, n - 1);
        let x = a[n - 1] as int;
        let y = b[n - 1] as int;
        assert(x * y == y * x) by (nonlinear_arith);
    }
}

/// Every pair of feature vectors has a cosine similarity: the search from
/// `hi` downwards ends at the latest at zero.
proof fn lemma_cosine_search(a: Seq<u16>, b: Seq<u16>, hi: int) -> (s: int)
    requires
        0 <= hi <= ONE,
        dot(a, a) != 0,
        dot(b, b) != 0,
        hi < ONE ==> !at_most_cosine(hi + 1, a, b),
    ensures
        is_cosine(s, a, b),
    decreases hi,
{
    if at_most_cosine(hi, a, b) {
        hi
    } else {
        assert(hi > 0) by {
            let m = dot(a, a) * dot(b, b);
            let d = dot(a, b) * dot(a, b);
            assert(0 * 0 * m == 0) by (nonlinear_arith);
            assert(0 <= d) by (nonlinear_arith)
                requires
                    d == dot(a, b) * dot(a, b),
            ;
        }
        lemma_cosine_search(a, b, hi - 1)
    }
}

/// Every pair of feature vectors has exactly one cosine similarity, and it
/// lies in the unit interval.
pub proof fn lemma_cosine_defined(a: Seq<u16>, b: Seq<u16>)
    ensures
        is_cosine(cosine_of(a, b), a, b),
        0 <= cosine_of(a, b) <= ONE,
{
    if dot(a, a) == 0 || dot(b, b) == 0 {
        assert(is_cosine(0, a, b));
    } else {
        let s = lemma_cosine_search(a, b, ONE as int);
        assert(is_cosine(s, a, b));
    }
}

/// Similarity is symmetric.
pub proof fn lemma_cosine_symmetric(a: Seq<u16>, b: Seq<u16>)
    requires
        a.len() == b.len(),
    ensures
        cosine_of(a, b) == cosine_of(b, a),
{
    lemma_cosine_defined(a, b);
    lemma_cosine_defined(b, a);
    lemma_dot_symmetric(a, b, a.len() as int);
    let s = cosine_of(a, b);
    let aa = dot(a, a);
    let bb = dot(b, b);
    assert(aa * bb == bb * aa) by (nonlinear_arith);
    assert(is_cosine(s, b, a));
    lemma_cosine_unique(s, cosine_of(b, a), b, a);
}

/// A context that is not the zero vector is wholly similar to itself.
pub proof fn lemma_cosine_self(a: Seq<u16>)
    requires
        dot(a, a) != 0,
    ensures
        cosine_of(a, a) == ONE,
{
    lemma_cosine_defined(a, a);
    let m = dot(a, a) * dot(a, a);
    assert(1_000_000 * 1_000_000 * m == 1_000_000_000_000 * m) by (nonlinear_arith);
    assert(is_cosine(ONE as int, a, a));
    lemma_cosine_unique(ONE as int, cosine_of(a, a), a, a);
}

} // verus!
