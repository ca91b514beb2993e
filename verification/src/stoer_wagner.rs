//! The Stoer-Wagner global minimum cut on a dense graph of at most 64 nodes.
//!
//! The algorithm runs `n - 1` phases. Each phase grows a maximum-adjacency
//! ordering over the nodes that are still active, takes the last node added
//! as one side of a cut, and then merges the last two nodes. A merged node
//! stands for a group of nodes of the graph; the group is kept as a bit mask.

use vstd::prelude::*;
use crate::cut::{
    between, cut_weight, is_side, lemma_between_bound, lemma_between_empty_from,
    lemma_between_singles, lemma_between_split_from, lemma_between_split_to, rest_of,
    weights_symmetric, weights_within,
};
use crate::ordering::{lemma_last_cut_minimal, most_adjacent_first, ordering_ok, sides_ok};
use crate::units::ONE;

verus! {

/// Whether bit `i` of `mask` is set.
pub open spec fn bit(mask: u64, i: int) -> bool {
    (mask >> (i as u64)) & 1u64 == 1u64
}

/// The set of the node indices whose bit is set in `mask`.
pub open spec fn mask_set(mask: u64) -> Set<int> {
    Set::new(|i: int| 0 <= i < 64 && bit(mask, i))
}

/// The weights of a dense adjacency matrix as a function of two node indices.
pub open spec fn weights_of(adj: [[u32; 64]; 64]) -> spec_fn(int, int) -> int {
    |i: int, j: int| adj@[i]@[j] as int
}

/// Whether `groups[a]` is, for each active node `a`, a set of nodes of the
/// graph that holds `a`, such that the groups of the active nodes part the
/// nodes of the graph among them; `rep[x]` names the active node whose group
/// holds `x`.
pub open spec fn groups_part(n: int, active: Seq<bool>, groups: Seq<Set<int>>, rep: Seq<int>) -> bool {
    &&& groups.len() == 64
    &&& active.len() == 64
    &&& rep.len() == n
    &&& forall|a: int| 0 <= a < 64 && #[trigger] active[a] ==> a < n && groups[a].contains(a)
    &&& forall|a: int, x: int|
        0 <= a < 64 && active[a] && #[trigger] groups[a].contains(x) ==> 0 <= x < n
    &&& forall|a: int, b: int, x: int|
        0 <= a < 64 && 0 <= b < 64 && a != b && active[a] && active[b]
            && #[trigger] groups[a].contains(x) ==> !#[trigger] groups[b].contains(x)
    &&& forall|x: int|
        0 <= x < n ==> 0 <= #[trigger] rep[x] < 64 && active[rep[x]] && groups[rep[x]].contains(x)
}

/// Whether each entry of the working matrix between two active nodes is the
/// total weight between their groups.
pub open spec fn weights_contracted(
    g: spec_fn(int, int) -> int,
    n: int,
    w: [[u64; 64]; 64],
    active: Seq<bool>,
    groups: Seq<Set<int>>,
) -> bool {
    forall|a: int, b: int|
        0 <= a < 64 && 0 <= b < 64 && a != b && active[a] && active[b] ==> #[trigger] w@[a]@[b]
            == between(g, n, groups[a], groups[b])
}

/// Whether each active node's mask holds exactly its group.
pub open spec fn masks_hold(merged: [u64; 64], active: Seq<bool>, groups: Seq<Set<int>>) -> bool {
    forall|a: int, i: int|
        0 <= a < 64 && active[a] && 0 <= i < 64 ==> (#[trigger] bit(merged@[a], i)
            <==> groups[a].contains(i))
}

/// Whether `x` is a set of nodes of the graph.
pub open spec fn within(n: int, x: Set<int>) -> bool {
    forall|e: int| x.contains(e) ==> 0 <= e < n
}

/// Whether the cut `x` leaves every group whole: each node of the group of
/// an active node lies on the side of that node.
pub open spec fn respects(x: Set<int>, active: Seq<bool>, groups: Seq<Set<int>>) -> bool {
    forall|a: int, e: int|
        0 <= a < 64 && active[a] && #[trigger] groups[a].contains(e) ==> x.contains(e)
            == x.contains(a)
}

/// The number of active nodes below `k`.
pub open spec fn count_active(active: Seq<bool>, k: int) -> int
    decreases k,
{
    if k <= 0 {
        0
    } else {
        count_active(active, k - 1) + if active[k - 1] {
            1int
        } else {
            0int
        }
    }
}

/// The number of active nodes below `k` that the ordering has not reached.
pub open spec fn count_pending(active: Seq<bool>, in_a: Seq<bool>, k: int) -> int
    decreases k,
{
    if k <= 0 {
        0
    } else {
        count_pending(active, in_a, k - 1) + if active[k - 1] && !in_a[k - 1] {
            1int
        } else {
            0int
        }
    }
}

proof fn lemma_bit_single(i: u64, j: u64)
    by (bit_vector)
    requires
        i < 64,
        j < 64,
    ensures
        (((1u64 << i) >> j) & 1u64 == 1u64) <==> i == j,
{
}

proof fn lemma_bit_or(a: u64, b: u64, j: u64)
    by (bit_vector)
    requires
        j < 64,
    ensures
        (((a | b) >> j) & 1u64 == 1u64) <==> ((a >> j) & 1u64 == 1u64 || (b >> j) & 1u64 == 1u64),
{
}

proof fn lemma_pending_bounds(active: Seq<bool>, in_a: Seq<bool>, k: int)
    requires
        0 <= k,
    ensures
        0 <= count_pending(active, in_a, k) <= k,
        count_pending(active, in_a, k) > 0 ==> exists|i: int|
            0 <= i < k && #[trigger] active[i] && !in_a[i],
        count_pending(active, in_a, k) == 0 ==> forall|i: int|
            0 <= i < k && #[trigger] active[i] ==> in_a[i],
    decreases k,
{
    if k > 0 {
        lemma_pending_bounds(active, in_a, k - 1);
        if active[k - 1] && !in_a[k - 1] {
        } else if count_pending(active, in_a, k) > 0 {
            let i = choose|i: int| 0 <= i < k - 1 && #[trigger] active[i] && !in_a[i];
            assert(active[i] && !in_a[i]);
        }
    }
}

proof fn lemma_pending_when_none(active: Seq<bool>, in_a: Seq<bool>, k: int)
    requires
        forall|i: int| 0 <= i < k ==> !#[trigger] in_a[i],
    ensures
        count_pending(active, in_a, k) == count_active(active, k),
    decreases k,
{
    if k > 0 {
        lemma_pending_when_none(active, in_a, k - 1);
    }
}

proof fn lemma_pending_drop(active: Seq<bool>, in_a: Seq<bool>, u: int, k: int)
    requires
        0 <= u < in_a.len(),
        active[u],
        !in_a[u],
        k <= in_a.len(),
    ensures
        count_pending(active, in_a.update(u, true), k) == count_pending(active, in_a, k) - if u
            < k {
            1int
        } else {
            0int
        },
    decreases k,
{
    if k > 0 {
        lemma_pending_drop(active, in_a, u, k - 1);
    }
}

proof fn lemma_active_drop(active: Seq<bool>, t: int, k: int)
    requires
        0 <= t < active.len(),
        active[t],
        k <= active.len(),
    ensures
        count_active(active.update(t, false), k) == count_active(active, k) - if t < k {
            1int
        } else {
            0int
        },
    decreases k,
{
    if k > 0 {
        lemma_active_drop(active, t, k - 1);
    }
}

proof fn lemma_single_active(active: Seq<bool>, a: int, b: int, k: int)
    requires
        0 <= a < k,
        0 <= b < k,
        a != b,
        active[a],
        active[b],
    ensures
        count_active(active, k) >= 2,
    decreases k,
{
    lemma_active_nonnegative(active, k - 1);
    if a < k - 1 && b < k - 1 {
        lemma_single_active(active, a, b, k - 1);
    } else if a < k - 1 {
        lemma_one_active(active, a, k - 1);
    } else {
        lemma_one_active(active, b, k - 1);
    }
}

proof fn lemma_one_active(active: Seq<bool>, a: int, k: int)
    requires
        0 <= a < k,
        active[a],
    ensures
        count_active(active, k) >= 1,
    decreases k,
{
    lemma_active_nonnegative(active, k - 1);
    if a < k - 1 {
        lemma_one_active(active, a, k - 1);
    }
}

proof fn lemma_active_nonnegative(active: Seq<bool>, k: int)
    ensures
        count_active(active, k) >= 0,
    decreases k,
{
    if k > 0 {
        lemma_active_nonnegative(active, k - 1);
    }
}

proof fn lemma_active_full(active: Seq<bool>, n: int, k: int)
    requires
        0 <= k <= n,
        forall|i: int| 0 <= i < n ==> #[trigger] active[i],
    ensures
        count_active(active, k) == k,
    decreases k,
{
    if k > 0 {
        lemma_active_full(active, n, k - 1);
    }
}

/// Among the active nodes that the ordering has not reached, the last one
/// with the largest key.
fn most_adjacent(active: &[bool; 64], in_a: &[bool; 64], key: &[u64; 64], n: usize) -> (u: usize)
    requires
        n <= 64,
        exists|v: int| 0 <= v < n && #[trigger] active@[v] && !in_a@[v],
    ensures
        u < n,
        active@[u as int],
        !in_a@[u as int],
        forall|v: int| 0 <= v < n && #[trigger] active@[v] && !in_a@[v] ==> key@[v] <= key@[u as int],
{
    let mut best: usize = 0;
    let mut any: bool = false;
    let mut i: usize = 0;
    while i < n
        invariant
            i <= n <= 64,
            any ==> best < i && active@[best as int] && !in_a@[best as int],
            any ==> forall|v: int|
                0 <= v < i && #[trigger] active@[v] && !in_a@[v] ==> key@[v] <= key@[best as int],
            !any ==> best == 0,
            !any ==> forall|v: int| 0 <= v < i && #[trigger] active@[v] ==> in_a@[v],
        decreases n - i,
    {
        if active[i] && !in_a[i] {
            if !any || key[i] >= key[best] {
                best = i;
                any = true;
            }
        }
        i = i + 1;
    }
    best
}

/// Counts the active nodes.
fn count_active_nodes(active: &[bool; 64], n: usize) -> (count: usize)
    requires
        n <= 64,
    ensures
        count == count_active(active@, n as int),
        count <= n,
{
    let mut count: usize = 0;
    let mut i: usize = 0;
    while i < n
        invariant
            i <= n <= 64,
            count == count_active(active@, i as int),
            count <= i,
        decreases n - i,
    {
        if active[i] {
            count = count + 1;
        }
        i = i + 1;
    }
    count
}

/// One phase: grows a maximum-adjacency ordering over the active nodes and
/// returns the last two nodes added, `s` and `t`, with the weight of the cut
/// that parts the group of `t` from the rest of the graph.
///
/// No cut that leaves every group whole and parts `s` from `t` is cheaper.
fn min_cut_phase(
    w: &[[u64; 64]; 64],
    active: &[bool; 64],
    n: usize,
    Ghost(g): Ghost<spec_fn(int, int) -> int>,
    Ghost(groups): Ghost<Seq<Set<int>>>,
    Ghost(rep): Ghost<Seq<int>>,
) -> (phase: (usize, usize, u64))
    requires
        n <= 64,
        weights_within(g, n as int, ONE as int),
        weights_symmetric(g, n as int),
        groups_part(n as int, active@, groups, rep),
        weights_contracted(g, n as int, *w, active@, groups),
        count_active(active@, n as int) >= 2,
    ensures
        phase.0 < n,
        phase.1 < n,
        phase.0 != phase.1,
        active@[phase.0 as int],
        active@[phase.1 as int],
        phase.2 == cut_weight(g, n as int, groups[phase.1 as int]),
        forall|x: Set<int>|
            within(n as int, x) && respects(x, active@, groups) && x.contains(phase.0 as int)
                != x.contains(phase.1 as int) ==> phase.2 <= #[trigger] cut_weight(g, n as int, x),
{
    let mut in_a: [bool; 64] = [false;64];
    let mut key: [u64; 64] = [0u64;64];
    let mut prev: usize = 0;
    let mut last: usize = 0;
    let active_count: usize = count_active_nodes(active, n);
    let mut steps: usize = 0;
    let ghost mut in_set: Set<int> = Set::empty();
    let ghost mut before_last: Set<int> = Set::empty();
    let ghost mut order: Seq<int> = Seq::empty();
    let ghost mut parts: Seq<Set<int>> = Seq::empty();
    let ghost mut prefix: Seq<Set<int>> = seq![Set::<int>::empty()];
    proof {
        lemma_pending_when_none(active@, in_a@, n as int);
        assert forall|v: int| 0 <= v < n && active@[v] implies #[trigger] key@[v] == between(
            g,
            n as int,
            in_set,
            groups[v],
        ) by {
            lemma_between_empty_from(g, n as int, groups[v], n as int);
        }
    }
    while steps < active_count
        invariant
            n <= 64,
            steps <= active_count <= n,
            active_count >= 2,
            in_a@.len() == 64,
            key@.len() == 64,
            weights_within(g, n as int, ONE as int),
            groups_part(n as int, active@, groups, rep),
            weights_contracted(g, n as int, *w, active@, groups),
            count_pending(active@, in_a@, n as int) + steps == active_count,
            forall|v: int| 0 <= v < 64 && #[trigger] in_a@[v] ==> v < n && active@[v],
            forall|v: int, x: int|
                0 <= v < n && in_a@[v] && #[trigger] groups[v].contains(x) ==> in_set.contains(x),
            forall|x: int| #[trigger] in_set.contains(x) ==> 0 <= x < n,
            forall|x: int| 0 <= x < n && in_set.contains(x) ==> in_a@[#[trigger] rep[x]],
            forall|v: int|
                0 <= v < n && active@[v] && !in_a@[v] ==> #[trigger] key@[v] == between(
                    g,
                    n as int,
                    in_set,
                    groups[v],
                ),
            steps >= 1 ==> last < n && in_a@[last as int] && key@[last as int] == between(
                g,
                n as int,
                before_last,
                groups[last as int],
            ) && in_set =~= before_last.union(groups[last as int]) && before_last.disjoint(
                groups[last as int],
            ),
            steps >= 2 ==> prev < n && in_a@[prev as int] && prev != last,
            order.len() == steps,
            parts.len() == steps,
            prefix.len() == steps + 1,
            ordering_ok(n as int, parts, prefix),
            most_adjacent_first(g, n as int, parts, prefix),
            in_set == prefix[steps as int],
            forall|i: int|
                0 <= i < steps ==> 0 <= #[trigger] order[i] < n && active@[order[i]]
                    && in_a@[order[i]] && parts[i] == groups[order[i]],
            steps >= 1 ==> last == order[steps - 1] && before_last == prefix[steps - 1],
            steps >= 2 ==> prev == order[steps - 2],
            forall|i: int, v: int|
                0 <= i < steps && 0 <= v < n && active@[v] && !in_a@[v] ==> between(
                    g,
                    n as int,
                    prefix[i],
                    #[trigger] groups[v],
                ) <= between(g, n as int, prefix[i], #[trigger] parts[i]),
        decreases active_count - steps,
    {
        proof {
            lemma_pending_bounds(active@, in_a@, n as int);
        }
        let u: usize = most_adjacent(active, &in_a, &key, n);
        if steps > 0 {
            prev = last;
        }
        last = u;
        let ghost old_parts = parts;
        let ghost old_prefix = prefix;
        proof {
            lemma_pending_drop(active@, in_a@, u as int, n as int);
            before_last = in_set;
            assert(before_last.disjoint(groups[u as int])) by {
                assert forall|x: int| before_last.contains(x) implies !groups[u as int].contains(
                    x,
                ) by {
                    let r = rep[x];
                    assert(in_a@[r]);
                    assert(groups[r].contains(x));
                }
            }
        }
        let ghost old_in_a = in_a@;
        let ghost old_key = key@;
        in_a[u] = true;
        proof {
            in_set = before_last.union(groups[u as int]);
            order = order.push(u as int);
            parts = old_parts.push(groups[u as int]);
            prefix = old_prefix.push(in_set);
            // Each earlier part was attached at least as strongly as the new one.
            assert(most_adjacent_first(g, n as int, parts, prefix)) by {
                assert forall|i: int, j: int| 0 <= i < j < parts.len() implies between(
                    g,
                    n as int,
                    prefix[i],
                    #[trigger] parts[j],
                ) <= between(g, n as int, prefix[i], #[trigger] parts[i]) by {
                    assert(prefix[i] == old_prefix[i]);
                    assert(parts[i] == old_parts[i]);
                    if j < steps {
                        assert(parts[j] == old_parts[j]);
                    } else {
                        assert(between(g, n as int, old_prefix[i], groups[u as int]) <= between(
                            g,
                            n as int,
                            old_prefix[i],
                            old_parts[i],
                        ));
                    }
                }
            }
            assert(ordering_ok(n as int, parts, prefix)) by {
                assert forall|i: int| 0 <= i < parts.len() implies prefix[i + 1] == prefix[i].union(
                    #[trigger] parts[i],
                ) && prefix[i].disjoint(parts[i]) by {
                    if i < steps {
                        assert(parts[i] == old_parts[i]);
                        assert(old_prefix[i + 1] == old_prefix[i].union(old_parts[i]));
                    }
                }
                assert forall|i: int, e: int|
                    0 <= i < parts.len() && #[trigger] parts[i].contains(e) implies 0 <= e < n by {
                    if i < steps {
                        assert(old_parts[i].contains(e));
                    }
                }
            }
        }
        let mut v: usize = 0;
        while v < n
            invariant
                v <= n <= 64,
                u < n,
                in_a@.len() == 64,
                key@.len() == 64,
                old_in_a.len() == 64,
                old_key.len() == 64,
                weights_within(g, n as int, ONE as int),
                groups_part(n as int, active@, groups, rep),
                weights_contracted(g, n as int, *w, active@, groups),
                active@[u as int],
                in_a@ == old_in_a.update(u as int, true),
                !old_in_a[u as int],
                in_set == before_last.union(groups[u as int]),
                before_last.disjoint(groups[u as int]),
                forall|z: int| 0 <= z < 64 && #[trigger] old_in_a[z] ==> z < n && active@[z],
                forall|z: int|
                    0 <= z < n && active@[z] && !old_in_a[z] ==> #[trigger] old_key[z] == between(
                        g,
                        n as int,
                        before_last,
                        groups[z],
                    ),
                forall|z: int|
                    0 <= z < v && active@[z] && !in_a@[z] ==> #[trigger] key@[z] == between(
                        g,
                        n as int,
                        in_set,
                        groups[z],
                    ),
                forall|z: int| v <= z < 64 ==> #[trigger] key@[z] == old_key[z],
                forall|z: int| 0 <= z < 64 && in_a@[z] ==> #[trigger] key@[z] == old_key[z],
            decreases n - v,
        {
            if active[v] && !in_a[v] {
                proof {
                    lemma_between_split_from(
                        g,
                        n as int,
                        before_last,
                        groups[u as int],
                        groups[v as int],
                    );
                    lemma_between_bound(g, n as int, in_set, groups[v as int], ONE as int);
                    lemma_between_bound(
                        g,
                        n as int,
                        groups[u as int],
                        groups[v as int],
                        ONE as int,
                    );
                    lemma_between_bound(g, n as int, before_last, groups[v as int], ONE as int);
                    assert(n * (n * ONE) <= 64 * (64 * 1_000_000)) by (nonlinear_arith)
                        requires
                            0 <= n <= 64,
                            ONE == 1_000_000,
                    ;
                    assert(u != v);
                    assert(w@[u as int]@[v as int] == between(
                        g,
                        n as int,
                        groups[u as int],
                        groups[v as int],
                    ));
                    assert(old_key[v as int] == between(g, n as int, before_last, groups[v as int]));
                }
                key[v] = key[v] + w[u][v];
            }
            v = v + 1;
        }
        proof {
            assert forall|z: int, x: int|
                0 <= z < n && in_a@[z] && #[trigger] groups[z].contains(x) implies in_set.contains(
                x,
            ) by {
                if z != u {
                    assert(old_in_a[z]);
                }
            }
            assert forall|x: int| 0 <= x < n && in_set.contains(x) implies in_a@[#[trigger] rep[x]] by {
                if before_last.contains(x) {
                    assert(old_in_a[rep[x]]);
                } else {
                    assert(groups[u as int].contains(x));
                    assert(groups[rep[x]].contains(x));
                    assert(rep[x] == u);
                }
            }
            // What is still pending is attached to each prefix at most as
            // strongly as the part that was added to it.
            assert forall|i: int, z: int|
                0 <= i < steps + 1 && 0 <= z < n && active@[z] && !in_a@[z] implies between(
                g,
                n as int,
                prefix[i],
                #[trigger] groups[z],
            ) <= between(g, n as int, prefix[i], #[trigger] parts[i]) by {
                assert(!old_in_a[z]);
                if i < steps {
                    assert(prefix[i] == old_prefix[i]);
                    assert(parts[i] == old_parts[i]);
                    assert(between(g, n as int, old_prefix[i], groups[z]) <= between(
                        g,
                        n as int,
                        old_prefix[i],
                        old_parts[i],
                    ));
                } else {
                    assert(prefix[i] == before_last);
                    assert(old_key[z] <= old_key[u as int]);
                    assert(old_key[z] == between(g, n as int, before_last, groups[z]));
                    assert(old_key[u as int] == between(g, n as int, before_last, groups[u as int]));
                }
            }
            assert forall|i: int| 0 <= i < steps + 1 implies 0 <= #[trigger] order[i] < n
                && active@[order[i]] && in_a@[order[i]] && parts[i] == groups[order[i]] by {
                if i < steps {
                    assert(old_parts[i] == groups[order[i]]);
                    assert(old_in_a[order[i]]);
                }
            }
        }
        steps = steps + 1;
    }
    proof {
        // Every active node is in the ordering, so the nodes ordered before
        // the last are exactly the rest of the last node's group.
        lemma_pending_bounds(active@, in_a@, n as int);
        let rest = rest_of(n as int, groups[last as int]);
        assert forall|x: int| rest.contains(x) implies before_last.contains(x) by {
            let r = rep[x];
            assert(active@[r] && groups[r].contains(x));
            assert(in_a@[r]);
            assert(in_set.contains(x));
            assert(before_last.union(groups[last as int]).contains(x));
        }
        assert forall|x: int| before_last.contains(x) implies rest.contains(x) by {
            assert(before_last.union(groups[last as int]).contains(x));
            assert(in_set.contains(x));
        }
        assert(before_last =~= rest);
        let m = steps as int;
        assert forall|x: Set<int>|
            within(n as int, x) && respects(x, active@, groups) && x.contains(prev as int)
                != x.contains(last as int) implies key@[last as int] <= #[trigger] cut_weight(
            g,
            n as int,
            x,
        ) by {
            let inside = Seq::new(m as nat, |i: int| x.contains(order[i]));
            assert(sides_ok(parts, x, inside)) by {
                assert forall|i: int, e: int|
                    0 <= i < parts.len() && #[trigger] parts[i].contains(e) implies (inside[i]
                    <==> x.contains(e)) by {
                    assert(parts[i] == groups[order[i]]);
                    assert(groups[order[i]].contains(e));
                }
            }
            assert forall|e: int| 0 <= e < n implies prefix[parts.len() as int].contains(e) by {
                let r = rep[e];
                assert(active@[r] && groups[r].contains(e));
                assert(in_a@[r]);
                assert(in_set.contains(e));
            }
            lemma_last_cut_minimal(g, n as int, ONE as int, parts, prefix, x, inside);
        }
    }
    (prev, last, key[last])
}

/// Merges node `t` into node `s` in the working matrix: every entry between
/// `s` and another active node takes up the entry between `t` and that node.
fn merge_rows(w: &mut [[u64; 64]; 64], active: &[bool; 64], n: usize, s: usize, t: usize)
    requires
        n <= 64,
        s < n,
        t < n,
        s != t,
        forall|b: int|
            0 <= b < n && #[trigger] active@[b] && b != s && b != t ==> old(w)@[s as int]@[b] + old(
                w,
            )@[t as int]@[b] <= u64::MAX && old(w)@[b]@[s as int] + old(w)@[b]@[t as int]
                <= u64::MAX,
    ensures
        forall|a: int, b: int|
            0 <= a < 64 && 0 <= b < 64 ==> #[trigger] final(w)@[a]@[b] == if a == s && b < n
                && active@[b] && b != s && b != t {
                old(w)@[s as int]@[b] + old(w)@[t as int]@[b]
            } else if b == s && a < n && active@[a] && a != s && a != t {
                old(w)@[a]@[s as int] + old(w)@[a]@[t as int]
            } else {
                old(w)@[a]@[b] as int
            },
{
    let mut i: usize = 0;
    while i < n
        invariant
            i <= n <= 64,
            s < n,
            t < n,
            s != t,
            forall|b: int|
                0 <= b < n && #[trigger] active@[b] && b != s && b != t ==> old(w)@[s as int]@[b]
                    + old(w)@[t as int]@[b] <= u64::MAX && old(w)@[b]@[s as int] + old(
                    w,
                )@[b]@[t as int] <= u64::MAX,
            forall|a: int, b: int|
                0 <= a < 64 && 0 <= b < 64 ==> #[trigger] w@[a]@[b] == if a == s && b < i
                    && active@[b] && b != s && b != t {
                    old(w)@[s as int]@[b] + old(w)@[t as int]@[b]
                } else if b == s && a < i && active@[a] && a != s && a != t {
                    old(w)@[a]@[s as int] + old(w)@[a]@[t as int]
                } else {
                    old(w)@[a]@[b] as int
                },
        decreases n - i,
    {
        if active[i] && i != s && i != t {
            assert(w@[s as int]@[i as int] == old(w)@[s as int]@[i as int]);
            assert(w@[t as int]@[i as int] == old(w)@[t as int]@[i as int]);
            assert(w@[i as int]@[s as int] == old(w)@[i as int]@[s as int]);
            assert(w@[i as int]@[t as int] == old(w)@[i as int]@[t as int]);
            let down: u64 = w[s][i] + w[t][i];
            let across: u64 = w[i][s] + w[i][t];
            w[s][i] = down;
            w[i][s] = across;
        }
        i = i + 1;
    }
}

/// The global minimum cut of the graph on the first `n` nodes of `adj`.
///
/// Returns the weight of the cut and, as a bit mask over node indices, one
/// of its two sides. The mask is a side of the graph, the weight is the
/// weight of the cut around it, and no cut of the graph weighs less.
pub fn stoer_wagner(adj: &[[u32; 64]; 64], n: usize) -> (cut: (u64, u64))
    requires
        2 <= n <= 64,
        weights_within(weights_of(*adj), n as int, ONE as int),
        weights_symmetric(weights_of(*adj), n as int),
    ensures
        is_side(n as int, mask_set(cut.1)),
        cut.0 == cut_weight(weights_of(*adj), n as int, mask_set(cut.1)),
        forall|x: Set<int>|
            is_side(n as int, x) ==> cut.0 <= #[trigger] cut_weight(weights_of(*adj), n as int, x),
{
    let ghost g = weights_of(*adj);
    let mut w: [[u64; 64]; 64] = [[0u64;64];64];
    let mut merged: [u64; 64] = [0u64;64];
    let mut active: [bool; 64] = [false;64];
    let mut i: usize = 0;
    while i < n
        invariant
            i <= n <= 64,
            forall|a: int, b: int|
                0 <= a < i && 0 <= b < n ==> #[trigger] w@[a]@[b] == adj@[a]@[b] as int,
            forall|a: int| 0 <= a < i ==> #[trigger] active@[a],
            forall|a: int| i <= a < 64 ==> !#[trigger] active@[a],
            forall|a: int| 0 <= a < i ==> #[trigger] merged@[a] == 1u64 << (a as u64),
        decreases n - i,
    {
        let mut j: usize = 0;
        while j < n
            invariant
                j <= n <= 64,
                i < n,
                forall|a: int, b: int|
                    0 <= a < i && 0 <= b < n ==> #[trigger] w@[a]@[b] == adj@[a]@[b] as int,
                forall|b: int| 0 <= b < j ==> #[trigger] w@[i as int]@[b] == adj@[i as int]@[b] as int,
            decreases n - j,
        {
            w[i][j] = adj[i][j] as u64;
            j = j + 1;
        }
        merged[i] = 1u64 << (i as u64);
        active[i] = true;
        i = i + 1;
    }
    let ghost mut groups: Seq<Set<int>> = Seq::new(64, |a: int| set![a]);
    let ghost mut rep: Seq<int> = Seq::new(n as nat, |x: int| x);
    proof {
        lemma_active_full(active@, n as int, n as int);
        assert forall|a: int, b: int|
            0 <= a < 64 && 0 <= b < 64 && a != b && active@[a] && active@[b] implies #[trigger] w@[a]@[b]
            == between(g, n as int, groups[a], groups[b]) by {
            lemma_between_singles(g, n as int, a, b);
        }
        assert forall|a: int, k: int| 0 <= a < 64 && active@[a] && 0 <= k < 64 implies (#[trigger] bit(
            merged@[a],
            k,
        ) <==> groups[a].contains(k)) by {
            lemma_bit_single(a as u64, k as u64);
        }
    }
    let mut best_cut: u64 = u64::MAX;
    let mut best_mask: u64 = 0;
    let ghost mut best_side: Set<int> = Set::empty();
    let mut phase: usize = 0;
    while phase < n - 1
        invariant
            2 <= n <= 64,
            phase <= n - 1,
            g == weights_of(*adj),
            weights_within(g, n as int, ONE as int),
            weights_symmetric(g, n as int),
            groups_part(n as int, active@, groups, rep),
            weights_contracted(g, n as int, w, active@, groups),
            masks_hold(merged, active@, groups),
            count_active(active@, n as int) == n - phase,
            forall|x: Set<int>|
                within(n as int, x) && !respects(x, active@, groups) ==> best_cut
                    <= #[trigger] cut_weight(g, n as int, x),
            phase == 0 ==> best_cut == u64::MAX,
            phase >= 1 ==> is_side(n as int, best_side) && best_cut == cut_weight(
                g,
                n as int,
                best_side,
            ) && forall|k: int| 0 <= k < 64 ==> (#[trigger] bit(best_mask, k) <==> best_side.contains(k)),
        decreases n - 1 - phase,
    {
        let (s, t, cut_val) = min_cut_phase(&w, &active, n, Ghost(g), Ghost(groups), Ghost(rep));
        proof {
            lemma_between_bound(
                g,
                n as int,
                rest_of(n as int, groups[t as int]),
                groups[t as int],
                ONE as int,
            );
            assert(n * (n * ONE) <= 64 * (64 * 1_000_000)) by (nonlinear_arith)
                requires
                    0 <= n <= 64,
                    ONE == 1_000_000,
            ;
        }
        if cut_val < best_cut {
            best_cut = cut_val;
            best_mask = merged[t];
            proof {
                best_side = groups[t as int];
                assert(groups[t as int].contains(t as int));
                assert(groups[s as int].contains(s as int));
                assert(!groups[t as int].contains(s as int));
                assert(is_side(n as int, best_side));
            }
        }
        proof {
            assert forall|b: int|
                0 <= b < n && #[trigger] active@[b] && b != s && b != t implies w@[s as int]@[b]
                + w@[t as int]@[b] <= u64::MAX && w@[b]@[s as int] + w@[b]@[t as int] <= u64::MAX by {
                lemma_between_bound(g, n as int, groups[s as int], groups[b], ONE as int);
                lemma_between_bound(g, n as int, groups[t as int], groups[b], ONE as int);
                lemma_between_bound(g, n as int, groups[b], groups[s as int], ONE as int);
                lemma_between_bound(g, n as int, groups[b], groups[t as int], ONE as int);
            }
        }
        let ghost old_w = w;
        let ghost old_groups = groups;
        let ghost old_rep = rep;
        let ghost old_active = active@;
        let ghost old_merged = merged;
        let ghost old_best = if cut_val < best_cut {
            cut_val
        } else {
            best_cut
        };
        merge_rows(&mut w, &active, n, s, t);
        merged[s] = merged[s] | merged[t];
        active[t] = false;
        proof {
            groups = old_groups.update(s as int, old_groups[s as int].union(old_groups[t as int]));
            rep = Seq::new(
                n as nat,
                |x: int|
                    if old_rep[x] == t {
                        s as int
                    } else {
                        old_rep[x]
                    },
            );
            lemma_active_drop(old_active, t as int, n as int);
            assert(active@ =~= old_active.update(t as int, false));
            assert(old_groups[s as int].disjoint(old_groups[t as int]));
            assert forall|x: int| 0 <= x < n implies 0 <= #[trigger] rep[x] < 64 && active@[rep[x]]
                && groups[rep[x]].contains(x) by {
                assert(old_active[old_rep[x]] && old_groups[old_rep[x]].contains(x));
            }
            assert(groups_part(n as int, active@, groups, rep));
            assert forall|a: int, b: int|
                0 <= a < 64 && 0 <= b < 64 && a != b && active@[a] && active@[b] implies #[trigger] w@[a]@[b]
                == between(g, n as int, groups[a], groups[b]) by {
                assert(old_active[a] && old_active[b]);
                assert(old_w@[a]@[b] == between(g, n as int, old_groups[a], old_groups[b]));
                if a == s {
                    assert(old_w@[t as int]@[b] == between(
                        g,
                        n as int,
                        old_groups[t as int],
                        old_groups[b],
                    ));
                    lemma_between_split_from(
                        g,
                        n as int,
                        old_groups[s as int],
                        old_groups[t as int],
                        old_groups[b],
                    );
                } else if b == s {
                    assert(old_w@[a]@[t as int] == between(
                        g,
                        n as int,
                        old_groups[a],
                        old_groups[t as int],
                    ));
                    lemma_between_split_to(
                        g,
                        n as int,
                        old_groups[a],
                        old_groups[s as int],
                        old_groups[t as int],
                    );
                }
            }
            // A cut that breaks a group either broke one before, or parts
            // the two nodes that were merged.
            assert forall|x: Set<int>|
                within(n as int, x) && !respects(x, active@, groups) implies best_cut
                <= #[trigger] cut_weight(g, n as int, x) by {
                if respects(x, old_active, old_groups) {
                    if x.contains(s as int) == x.contains(t as int) {
                        assert forall|a: int, e: int|
                            0 <= a < 64 && active@[a] && #[trigger] groups[a].contains(
                                e,
                            ) implies x.contains(e) == x.contains(a) by {
                            assert(old_active[a]);
                            if a == s {
                                if old_groups[s as int].contains(e) {
                                } else {
                                    assert(old_groups[t as int].contains(e));
                                }
                            } else {
                                assert(old_groups[a].contains(e));
                            }
                        }
                    }
                }
            }
            assert forall|a: int, k: int| 0 <= a < 64 && active@[a] && 0 <= k < 64 implies (#[trigger] bit(
                merged@[a],
                k,
            ) <==> groups[a].contains(k)) by {
                assert(old_active[a]);
                if a == s {
                    lemma_bit_or(old_merged@[s as int], old_merged@[t as int], k as u64);
                    assert(bit(old_merged@[s as int], k) <==> old_groups[s as int].contains(k));
                    assert(bit(old_merged@[t as int], k) <==> old_groups[t as int].contains(k));
                } else {
                    assert(bit(old_merged@[a], k) <==> old_groups[a].contains(k));
                }
            }
        }
        phase = phase + 1;
    }
    proof {
        // One group is left, and it is the whole graph: every cut breaks it.
        assert forall|x: Set<int>| is_side(n as int, x) implies best_cut <= #[trigger] cut_weight(
            g,
            n as int,
            x,
        ) by {
            let i = choose|i: int| x.contains(i);
            let j = choose|j: int| 0 <= j < n && !x.contains(j);
            let a = rep[i];
            let b = rep[j];
            if a != b {
                lemma_single_active(active@, a, b, n as int);
            }
            assert(groups[a].contains(i) && groups[a].contains(j));
            assert(!respects(x, active@, groups));
        }
        assert(mask_set(best_mask) =~= best_side) by {
            assert forall|k: int| best_side.contains(k) implies mask_set(best_mask).contains(k) by {
                assert(bit(best_mask, k) <==> best_side.contains(k));
            }
            assert forall|k: int| mask_set(best_mask).contains(k) implies best_side.contains(k) by {
                assert(bit(best_mask, k) <==> best_side.contains(k));
            }
        }
    }
    (best_cut, best_mask)
}

} // verus!
