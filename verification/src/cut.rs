//! Weighted cuts of a graph on the nodes `0..n`.
//!
//! Weights are given as a function of two node indices. A set of nodes is a
//! `Set<int>`; only its members in `0..n` ever count. Everything here is
//! specification and proof: the algebra of sums of weights between two sets
//! of nodes, on which the proof of the minimum cut rests.

use vstd::prelude::*;

verus! {

/// The total weight from the nodes of `from` below `k` into the node `y`.
pub open spec fn sum_into(w: spec_fn(int, int) -> int, from: Set<int>, y: int, k: int) -> int
    decreases k,
{
    if k <= 0 {
        0
    } else {
        sum_into(w, from, y, k - 1) + if from.contains(k - 1) {
            w(k - 1, y)
        } else {
            0
        }
    }
}

/// The total weight from the nodes of `from` below `n` into the nodes of `to` below `k`.
pub open spec fn sum_between(
    w: spec_fn(int, int) -> int,
    from: Set<int>,
    to: Set<int>,
    n: int,
    k: int,
) -> int
    decreases k,
{
    if k <= 0 {
        0
    } else {
        sum_between(w, from, to, n, k - 1) + if to.contains(k - 1) {
            sum_into(w, from, k - 1, n)
        } else {
            0
        }
    }
}

/// The total weight of the edges that lead from `from` to `to`.
pub open spec fn between(w: spec_fn(int, int) -> int, n: int, from: Set<int>, to: Set<int>) -> int {
    sum_between(w, from, to, n, n)
}

/// The nodes of `0..n` that are not in `side`.
pub open spec fn rest_of(n: int, side: Set<int>) -> Set<int> {
    Set::new(|i: int| 0 <= i < n && !side.contains(i))
}

/// The weight of the cut that separates `side` from the rest of the graph.
pub open spec fn cut_weight(w: spec_fn(int, int) -> int, n: int, side: Set<int>) -> int {
    between(w, n, rest_of(n, side), side)
}

/// Whether `side` is one side of a cut: a set of nodes of the graph that is
/// neither empty nor the whole graph.
pub open spec fn is_side(n: int, side: Set<int>) -> bool {
    &&& forall|i: int| side.contains(i) ==> 0 <= i < n
    &&& exists|i: int| side.contains(i)
    &&& exists|j: int| 0 <= j < n && !side.contains(j)
}

/// Whether every weight between two nodes of the graph lies in `0..=cap`.
pub open spec fn weights_within(w: spec_fn(int, int) -> int, n: int, cap: int) -> bool {
    forall|i: int, j: int| 0 <= i < n && 0 <= j < n ==> 0 <= #[trigger] w(i, j) <= cap
}

/// Whether the weights are the same in both directions.
pub open spec fn weights_symmetric(w: spec_fn(int, int) -> int, n: int) -> bool {
    forall|i: int, j: int| 0 <= i < n && 0 <= j < n ==> #[trigger] w(i, j) == w(j, i)
}

/// A sum into a node is bounded by the number of nodes summed over.
pub proof fn lemma_sum_into_bound(
    w: spec_fn(int, int) -> int,
    from: Set<int>,
    y: int,
    k: int,
    n: int,
    cap: int,
)
    requires
        weights_within(w, n, cap),
        0 <= k <= n,
        0 <= y < n,
        0 <= cap,
    ensures
        0 <= sum_into(w, from, y, k) <= k * cap,
    decreases k,
{
    if k > 0 {
        lemma_sum_into_bound(w, from, y, k - 1, n, cap);
        assert(0 <= w(k - 1, y) <= cap);
        assert((k - 1) * cap + cap == k * cap) by (nonlinear_arith);
    }
}

/// A sum between two sets is bounded by the number of pairs summed over.
pub proof fn lemma_sum_between_bound(
    w: spec_fn(int, int) -> int,
    from: Set<int>,
    to: Set<int>,
    n: int,
    k: int,
    cap: int,
)
    requires
        weights_within(w, n, cap),
        0 <= k <= n,
        0 <= cap,
    ensures
        0 <= sum_between(w, from, to, n, k) <= k * (n * cap),
    decreases k,
{
    if k > 0 {
        lemma_sum_between_bound(w, from, to, n, k - 1, cap);
        lemma_sum_into_bound(w, from, k - 1, n, n, cap);
        assert((k - 1) * (n * cap) + n * cap == k * (n * cap)) by (nonlinear_arith);
    }
}

/// The weight between two sets is never negative and at most `n * n * cap`.
pub proof fn lemma_between_bound(
    w: spec_fn(int, int) -> int,
    n: int,
    from: Set<int>,
    to: Set<int>,
    cap: int,
)
    requires
        weights_within(w, n, cap),
        0 <= n,
        0 <= cap,
    ensures
        0 <= between(w, n, from, to) <= n * (n * cap),
{
    lemma_sum_between_bound(w, from, to, n, n, cap);
}

/// Sums into a node add up over two disjoint sets of sources.
pub proof fn lemma_sum_into_split(
    w: spec_fn(int, int) -> int,
    a: Set<int>,
    b: Set<int>,
    y: int,
    k: int,
)
    requires
        a.disjoint(b),
    ensures
        sum_into(w, a.union(b), y, k) == sum_into(w, a, y, k) + sum_into(w, b, y, k),
    decreases k,
{
    if k > 0 {
        lemma_sum_into_split(w, a, b, y, k - 1);
    }
}

/// Sums between sets add up over two disjoint sets of sources.
pub proof fn lemma_sum_between_split_from(
    w: spec_fn(int, int) -> int,
    a: Set<int>,
    b: Set<int>,
    to: Set<int>,
    n: int,
    k: int,
)
    requires
        a.disjoint(b),
    ensures
        sum_between(w, a.union(b), to, n, k) == sum_between(w, a, to, n, k) + sum_between(
            w,
            b,
            to,
            n,
            k,
        ),
    decreases k,
{
    if k > 0 {
        lemma_sum_between_split_from(w, a, b, to, n, k - 1);
        lemma_sum_into_split(w, a, b, k - 1, n);
    }
}

/// Sums between sets add up over two disjoint sets of targets.
pub proof fn lemma_sum_between_split_to(
    w: spec_fn(int, int) -> int,
    from: Set<int>,
    a: Set<int>,
    b: Set<int>,
    n: int,
    k: int,
)
    requires
        a.disjoint(b),
    ensures
        sum_between(w, from, a.union(b), n, k) == sum_between(w, from, a, n, k) + sum_between(
            w,
            from,
            b,
            n,
            k,
        ),
    decreases k,
{
    if k > 0 {
        lemma_sum_between_split_to(w, from, a, b, n, k - 1);
    }
}

/// The weight between sets adds up over two disjoint sets of sources.
pub proof fn lemma_between_split_from(
    w: spec_fn(int, int) -> int,
    n: int,
    a: Set<int>,
    b: Set<int>,
    to: Set<int>,
)
    requires
        a.disjoint(b),
    ensures
        between(w, n, a.union(b), to) == between(w, n, a, to) + between(w, n, b, to),
{
    lemma_sum_between_split_from(w, a, b, to, n, n);
}

/// The weight between sets adds up over two disjoint sets of targets.
pub proof fn lemma_between_split_to(
    w: spec_fn(int, int) -> int,
    n: int,
    from: Set<int>,
    a: Set<int>,
    b: Set<int>,
)
    requires
        a.disjoint(b),
    ensures
        between(w, n, from, a.union(b)) == between(w, n, from, a) + between(w, n, from, b),
{
    lemma_sum_between_split_to(w, from, a, b, n, n);
}

/// A sum over the single source `x` is the weight of the edge from `x`.
pub proof fn lemma_sum_into_single(w: spec_fn(int, int) -> int, x: int, y: int, k: int)
    requires
        0 <= x,
    ensures
        sum_into(w, set![x], y, k) == if x < k {
            w(x, y)
        } else {
            0
        },
    decreases k,
{
    if k > 0 {
        lemma_sum_into_single(w, x, y, k - 1);
    }
}

/// A sum into the single target `y` is the sum into `y`.
pub proof fn lemma_sum_between_single(
    w: spec_fn(int, int) -> int,
    from: Set<int>,
    y: int,
    n: int,
    k: int,
)
    requires
        0 <= y,
    ensures
        sum_between(w, from, set![y], n, k) == if y < k {
            sum_into(w, from, y, n)
        } else {
            0
        },
    decreases k,
{
    if k > 0 {
        lemma_sum_between_single(w, from, y, n, k - 1);
    }
}

/// Between two single nodes lies one edge.
pub proof fn lemma_between_singles(w: spec_fn(int, int) -> int, n: int, x: int, y: int)
    requires
        0 <= x < n,
        0 <= y < n,
    ensures
        between(w, n, set![x], set![y]) == w(x, y),
{
    lemma_sum_between_single(w, set![x], y, n, n);
    lemma_sum_into_single(w, x, y, n);
}

/// Nothing leads out of the empty set.
pub proof fn lemma_sum_into_empty(w: spec_fn(int, int) -> int, y: int, k: int)
    ensures
        sum_into(w, Set::empty(), y, k) == 0,
    decreases k,
{
    if k > 0 {
        lemma_sum_into_empty(w, y, k - 1);
    }
}

/// Nothing leads out of the empty set, whatever the targets.
pub proof fn lemma_between_empty_from(w: spec_fn(int, int) -> int, n: int, to: Set<int>, k: int)
    ensures
        sum_between(w, Set::empty(), to, n, k) == 0,
    decreases k,
{
    if k > 0 {
        lemma_between_empty_from(w, n, to, k - 1);
        lemma_sum_into_empty(w, k - 1, n);
    }
}

/// Nothing leads into the empty set.
pub proof fn lemma_between_empty_to(w: spec_fn(int, int) -> int, n: int, from: Set<int>, k: int)
    ensures
        sum_between(w, from, Set::empty(), n, k) == 0,
    decreases k,
{
    if k > 0 {
        lemma_between_empty_to(w, n, from, k - 1);
    }
}

/// Sums into a node only look at the sources below `k`.
pub proof fn lemma_sum_into_agree(
    w: spec_fn(int, int) -> int,
    a: Set<int>,
    b: Set<int>,
    y: int,
    k: int,
)
    requires
        forall|x: int| 0 <= x < k ==> a.contains(x) == b.contains(x),
    ensures
        sum_into(w, a, y, k) == sum_into(w, b, y, k),
    decreases k,
{
    if k > 0 {
        lemma_sum_into_agree(w, a, b, y, k - 1);
    }
}

/// Sums between sets only look at the nodes of the graph.
pub proof fn lemma_sum_between_agree(
    w: spec_fn(int, int) -> int,
    a: Set<int>,
    a2: Set<int>,
    b: Set<int>,
    b2: Set<int>,
    n: int,
    k: int,
)
    requires
        k <= n,
        forall|x: int| 0 <= x < n ==> a.contains(x) == a2.contains(x),
        forall|x: int| 0 <= x < n ==> b.contains(x) == b2.contains(x),
    ensures
        sum_between(w, a, b, n, k) == sum_between(w, a2, b2, n, k),
    decreases k,
{
    if k > 0 {
        lemma_sum_between_agree(w, a, a2, b, b2, n, k - 1);
        lemma_sum_into_agree(w, a, a2, k - 1, n);
    }
}

/// A sum into a node grows with the set of sources, weights being non-negative.
pub proof fn lemma_sum_into_mono(
    w: spec_fn(int, int) -> int,
    a: Set<int>,
    a2: Set<int>,
    y: int,
    k: int,
    n: int,
    cap: int,
)
    requires
        weights_within(w, n, cap),
        0 <= k <= n,
        0 <= y < n,
        forall|x: int| 0 <= x < n && a.contains(x) ==> a2.contains(x),
    ensures
        sum_into(w, a, y, k) <= sum_into(w, a2, y, k),
    decreases k,
{
    if k > 0 {
        lemma_sum_into_mono(w, a, a2, y, k - 1, n, cap);
        assert(0 <= w(k - 1, y));
    }
}

/// A sum between sets grows with both sets, weights being non-negative.
pub proof fn lemma_sum_between_mono(
    w: spec_fn(int, int) -> int,
    a: Set<int>,
    a2: Set<int>,
    b: Set<int>,
    b2: Set<int>,
    n: int,
    k: int,
    cap: int,
)
    requires
        weights_within(w, n, cap),
        0 <= cap,
        0 <= k <= n,
        forall|x: int| 0 <= x < n && a.contains(x) ==> a2.contains(x),
        forall|x: int| 0 <= x < n && b.contains(x) ==> b2.contains(x),
    ensures
        sum_between(w, a, b, n, k) <= sum_between(w, a2, b2, n, k),
    decreases k,
{
    if k > 0 {
        lemma_sum_between_mono(w, a, a2, b, b2, n, k - 1, cap);
        lemma_sum_into_mono(w, a, a2, k - 1, n, n, cap);
        lemma_sum_into_bound(w, a2, k - 1, n, n, cap);
    }
}

/// The weight between sets grows with both sets, weights being non-negative.
pub proof fn lemma_between_mono(
    w: spec_fn(int, int) -> int,
    n: int,
    a: Set<int>,
    a2: Set<int>,
    b: Set<int>,
    b2: Set<int>,
    cap: int,
)
    requires
        weights_within(w, n, cap),
        0 <= cap,
        0 <= n,
        forall|x: int| 0 <= x < n && a.contains(x) ==> a2.contains(x),
        forall|x: int| 0 <= x < n && b.contains(x) ==> b2.contains(x),
    ensures
        between(w, n, a, b) <= between(w, n, a2, b2),
{
    lemma_sum_between_mono(w, a, a2, b, b2, n, n, cap);
}

/// With symmetric weights, the sum from one node into a set is the sum
/// from the set into the node.
proof fn lemma_single_row_is_column(w: spec_fn(int, int) -> int, a: Set<int>, y: int, n: int, k: int)
    requires
        weights_symmetric(w, n),
        0 <= y < n,
        0 <= k <= n,
    ensures
        sum_between(w, set![y], a, n, k) == sum_into(w, a, y, k),
    decreases k,
{
    if k > 0 {
        lemma_single_row_is_column(w, a, y, n, k - 1);
        lemma_sum_into_single(w, y, k - 1, n);
        assert(w(y, k - 1) == w(k - 1, y));
    }
}

/// With symmetric weights, the weight from `a` into the nodes of `b` below
/// `k` is the weight from those nodes into `a`.
proof fn lemma_between_sym_upto(w: spec_fn(int, int) -> int, n: int, a: Set<int>, b: Set<int>, k: int)
    requires
        weights_symmetric(w, n),
        0 <= k <= n,
    ensures
        sum_between(w, a, b, n, k) == between(w, n, Set::new(|y: int| 0 <= y < k && b.contains(y)), a),
    decreases k,
{
    let below = Set::new(|y: int| 0 <= y < k && b.contains(y));
    if k <= 0 {
        lemma_sum_between_agree(w, below, Set::empty(), a, a, n, n);
        lemma_between_empty_from(w, n, a, n);
    } else {
        let before = Set::new(|y: int| 0 <= y < k - 1 && b.contains(y));
        lemma_between_sym_upto(w, n, a, b, k - 1);
        if b.contains(k - 1) {
            assert(below =~= before.union(set![k - 1]));
            lemma_between_split_from(w, n, before, set![k - 1], a);
            lemma_single_row_is_column(w, a, k - 1, n, n);
        } else {
            assert(below =~= before);
        }
    }
}

/// With symmetric weights, the weight between two sets is the same in both directions.
pub proof fn lemma_between_sym(w: spec_fn(int, int) -> int, n: int, a: Set<int>, b: Set<int>)
    requires
        weights_symmetric(w, n),
        0 <= n,
    ensures
        between(w, n, a, b) == between(w, n, b, a),
{
    lemma_between_sym_upto(w, n, a, b, n);
    let below = Set::new(|y: int| 0 <= y < n && b.contains(y));
    lemma_sum_between_agree(w, below, b, a, a, n, n);
}

} // verus!
