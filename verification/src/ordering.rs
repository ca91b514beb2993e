//! Why the cut of a phase is a minimum cut between its last two nodes.
//!
//! A phase adds groups of nodes one at a time, each time the group that is
//! most strongly attached to what has been added so far. The theorem of
//! Stoer and Wagner says that the last group added is then as cheap to cut
//! off as any cut that parts it from the group added just before it. This
//! file states that theorem over sets of nodes and proves it.

use vstd::prelude::*;
use crate::cut::{
    between, cut_weight, lemma_between_bound, lemma_between_empty_from, lemma_between_mono,
    lemma_between_split_from, lemma_between_split_to, lemma_between_sym, lemma_sum_between_agree,
    rest_of, weights_symmetric, weights_within,
};

verus! {

/// The weight of the edges within `a` that cross the boundary of `x`.
pub open spec fn crossing(g: spec_fn(int, int) -> int, n: int, a: Set<int>, x: Set<int>) -> int {
    between(g, n, a.intersect(x), a.difference(x))
}

/// Whether `prefix[i]` is the union of the parts before the `i`-th, each
/// part being a set of nodes of the graph apart from all parts before it.
pub open spec fn ordering_ok(n: int, parts: Seq<Set<int>>, prefix: Seq<Set<int>>) -> bool {
    &&& prefix.len() == parts.len() + 1
    &&& prefix[0] == Set::<int>::empty()
    &&& forall|i: int|
        0 <= i < parts.len() ==> prefix[i + 1] == prefix[i].union(#[trigger] parts[i])
            && prefix[i].disjoint(parts[i])
    &&& forall|i: int, e: int| 0 <= i < parts.len() && #[trigger] parts[i].contains(e) ==> 0 <= e < n
}

/// Whether each part was, when it was added, at least as strongly attached
/// to the parts before it as any part added later.
pub open spec fn most_adjacent_first(
    g: spec_fn(int, int) -> int,
    n: int,
    parts: Seq<Set<int>>,
    prefix: Seq<Set<int>>,
) -> bool {
    forall|i: int, j: int|
        0 <= i < j < parts.len() ==> between(g, n, prefix[i], #[trigger] parts[j]) <= between(
            g,
            n,
            prefix[i],
            #[trigger] parts[i],
        )
}

/// Whether `inside[i]` tells, for every node of the `i`-th part, whether it is in `x`.
pub open spec fn sides_ok(parts: Seq<Set<int>>, x: Set<int>, inside: Seq<bool>) -> bool {
    &&& inside.len() == parts.len()
    &&& forall|i: int, e: int|
        0 <= i < parts.len() && #[trigger] parts[i].contains(e) ==> (inside[i] <==> x.contains(e))
}

/// A node is in `prefix[k]` exactly if it is in one of the first `k` parts.
pub proof fn lemma_prefix_members(n: int, parts: Seq<Set<int>>, prefix: Seq<Set<int>>, k: int)
    requires
        ordering_ok(n, parts, prefix),
        0 <= k <= parts.len(),
    ensures
        forall|e: int| #[trigger]
            prefix[k].contains(e) ==> exists|p: int| 0 <= p < k && #[trigger] parts[p].contains(e),
        forall|p: int, e: int| 0 <= p < k && #[trigger] parts[p].contains(e) ==> prefix[k].contains(e),
    decreases k,
{
    if k > 0 {
        lemma_prefix_members(n, parts, prefix, k - 1);
        assert(prefix[k - 1 + 1] == prefix[k - 1].union(parts[k - 1]));
        assert forall|e: int| #[trigger] prefix[k].contains(e) implies exists|p: int|
            0 <= p < k && #[trigger] parts[p].contains(e) by {
            if prefix[k - 1].contains(e) {
                let p = choose|p: int| 0 <= p < k - 1 && #[trigger] parts[p].contains(e);
                assert(0 <= p < k && parts[p].contains(e));
            } else {
                assert(parts[k - 1].contains(e));
            }
        }
    }
}

/// The induction behind the theorem. Position `i` lies on the other side
/// of `x` than position `i - 1`, and the positions from `k` to `i - 1` all
/// lie on one side. Then the `i`-th part is attached to the parts before it
/// by no more than the weight that crosses `x` among the first `i + 1` parts.
proof fn lemma_run(
    g: spec_fn(int, int) -> int,
    n: int,
    cap: int,
    parts: Seq<Set<int>>,
    prefix: Seq<Set<int>>,
    x: Set<int>,
    inside: Seq<bool>,
    i: int,
    k: int,
)
    requires
        weights_within(g, n, cap),
        weights_symmetric(g, n),
        0 <= cap,
        0 <= n,
        ordering_ok(n, parts, prefix),
        most_adjacent_first(g, n, parts, prefix),
        sides_ok(parts, x, inside),
        1 <= i < parts.len(),
        0 <= k < i,
        inside[i] != inside[i - 1],
        forall|p: int| k <= p < i ==> #[trigger] inside[p] == inside[i - 1],
    ensures
        between(g, n, prefix[i], parts[i]) <= crossing(g, n, prefix[i + 1], x),
    decreases i, k,
{
    if k > 0 && inside[k] == inside[k - 1] {
        lemma_run(g, n, cap, parts, prefix, x, inside, i, k - 1);
    } else {
        let sigma = inside[i - 1];
        let run = prefix[i].difference(prefix[k]);
        lemma_prefix_members(n, parts, prefix, i);
        lemma_prefix_members(n, parts, prefix, k);
        lemma_prefix_members(n, parts, prefix, i + 1);
        assert(prefix[i + 1] == prefix[i].union(parts[i]) && prefix[i].disjoint(parts[i]));

        // Every node of the run lies on the side of position `i - 1`.
        assert forall|e: int| run.contains(e) implies (sigma <==> x.contains(e)) by {
            let p = choose|p: int| 0 <= p < i && #[trigger] parts[p].contains(e);
            assert(parts[p].contains(e));
            if p < k {
                assert(prefix[k].contains(e));
            }
            assert(inside[p] == sigma);
        }
        assert forall|e: int| parts[i].contains(e) implies (sigma <==> !x.contains(e)) by {
            assert(inside[i] <==> x.contains(e));
        }

        // The attachment of part `i` splits into what comes from before the
        // run and what comes from the run.
        assert(prefix[i] =~= prefix[k].union(run)) by {
            assert forall|e: int| prefix[k].contains(e) implies prefix[i].contains(e) by {
                let p = choose|p: int| 0 <= p < k && #[trigger] parts[p].contains(e);
                assert(0 <= p < i && parts[p].contains(e));
            }
        }
        lemma_between_split_from(g, n, prefix[k], run, parts[i]);

        let from = prefix[i + 1].intersect(x);
        let to = prefix[i + 1].difference(x);
        let from_k = if k > 0 {
            prefix[k + 1].intersect(x)
        } else {
            Set::<int>::empty()
        };
        let to_k = if k > 0 {
            prefix[k + 1].difference(x)
        } else {
            Set::<int>::empty()
        };
        if k > 0 {
            // Part `k` was added before part `i`, so it was attached at least
            // as strongly; and position `k` changes sides, so the claim holds of it.
            assert(between(g, n, prefix[k], parts[i]) <= between(g, n, prefix[k], parts[k]));
            lemma_run(g, n, cap, parts, prefix, x, inside, k, k - 1);
            lemma_prefix_members(n, parts, prefix, k + 1);
            assert forall|e: int| prefix[k + 1].contains(e) implies prefix[i].contains(e) by {
                let p = choose|p: int| 0 <= p < k + 1 && #[trigger] parts[p].contains(e);
                assert(0 <= p < i && parts[p].contains(e));
            }
        } else {
            assert(prefix[k] =~= Set::<int>::empty());
            lemma_between_empty_from(g, n, parts[i], n);
        }
        lemma_between_bound(g, n, from_k, to_k, cap);
        assert(between(g, n, prefix[k], parts[i]) <= between(g, n, from_k, to_k));

        if sigma {
            // The run lies in `x` and part `i` outside.
            lemma_between_mono(g, n, from, from, to_k.union(parts[i]), to, cap);
            lemma_between_split_to(g, n, from, to_k, parts[i]);
            lemma_between_mono(g, n, from_k, from, to_k, to_k, cap);
            lemma_between_mono(g, n, run, from, parts[i], parts[i], cap);
        } else {
            // The run lies outside `x` and part `i` in it.
            lemma_between_mono(g, n, from_k.union(parts[i]), from, to, to, cap);
            lemma_between_split_from(g, n, from_k, parts[i], to);
            lemma_between_mono(g, n, from_k, from_k, to_k, to, cap);
            lemma_between_mono(g, n, parts[i], parts[i], run, to, cap);
            lemma_between_sym(g, n, run, parts[i]);
        }
    }
}

/// The theorem of a phase. If the parts cover the graph, each part lies
/// wholly on one side of `x`, and the last two parts lie on different sides,
/// then cutting off the last part costs no more than the cut `x`.
pub proof fn lemma_last_cut_minimal(
    g: spec_fn(int, int) -> int,
    n: int,
    cap: int,
    parts: Seq<Set<int>>,
    prefix: Seq<Set<int>>,
    x: Set<int>,
    inside: Seq<bool>,
)
    requires
        weights_within(g, n, cap),
        weights_symmetric(g, n),
        0 <= cap,
        0 <= n,
        ordering_ok(n, parts, prefix),
        most_adjacent_first(g, n, parts, prefix),
        sides_ok(parts, x, inside),
        parts.len() >= 2,
        forall|e: int| 0 <= e < n ==> prefix[parts.len() as int].contains(e),
        forall|e: int| x.contains(e) ==> 0 <= e < n,
        inside[parts.len() - 1] != inside[parts.len() - 2],
    ensures
        between(g, n, prefix[parts.len() - 1], parts[parts.len() - 1]) <= cut_weight(g, n, x),
{
    let m = parts.len() as int;
    lemma_run(g, n, cap, parts, prefix, x, inside, m - 1, m - 2);
    lemma_prefix_members(n, parts, prefix, m);
    let whole = prefix[m];
    assert forall|e: int| whole.contains(e) implies 0 <= e < n by {
        let p = choose|p: int| 0 <= p < m && #[trigger] parts[p].contains(e);
        assert(parts[p].contains(e));
    }
    lemma_sum_between_agree(
        g,
        whole.intersect(x),
        x,
        whole.difference(x),
        rest_of(n, x),
        n,
        n,
    );
    lemma_between_sym(g, n, x, rest_of(n, x));
}

} // verus!
