//! Projection towards the doubly stochastic matrices by alternating
//! normalisation.
//!
//! A square matrix of non-negative weights is swept repeatedly: each row is
//! divided by its sum, then each column by its sum. A sweep leaves every
//! entry in the unit interval. A matrix is held row by row in one slice.

use vstd::prelude::*;
use crate::units::ONE;

verus! {

/// The entry in row `i` and column `j` of a matrix of `n` columns.
pub open spec fn entry(m: Seq<u32>, n: int, i: int, j: int) -> int {
    m[i * n + j] as int
}

/// The sum of the first `k` entries of row `i`.
pub open spec fn row_sum(m: Seq<u32>, n: int, i: int, k: int) -> int
    decreases k,
{
    if k <= 0 {
        0
    } else {
        row_sum(m, n, i, k - 1) + entry(m, n, i, k - 1)
    }
}

/// The sum of the first `k` entries of column `j`.
pub open spec fn col_sum(m: Seq<u32>, n: int, j: int, k: int) -> int
    decreases k,
{
    if k <= 0 {
        0
    } else {
        col_sum(m, n, j, k - 1) + entry(m, n, k - 1, j)
    }
}

/// An entry divided by the sum of its line; a line that sums to zero is left alone.
pub open spec fn scaled(x: int, sum: int) -> int {
    if sum > 0 {
        x * ONE / sum
    } else {
        x
    }
}

/// Whether `after` is `before` with each row divided by its sum.
pub open spec fn rows_normalised(before: Seq<u32>, after: Seq<u32>, n: int) -> bool {
    &&& after.len() == before.len()
    &&& forall|i: int, j: int|
        0 <= i < n && 0 <= j < n ==> #[trigger] entry(after, n, i, j) == scaled(
            entry(before, n, i, j),
            row_sum(before, n, i, n),
        )
}

/// Whether `after` is `before` with each column divided by its sum.
pub open spec fn cols_normalised(before: Seq<u32>, after: Seq<u32>, n: int) -> bool {
    &&& after.len() == before.len()
    &&& forall|i: int, j: int|
        0 <= i < n && 0 <= j < n ==> #[trigger] entry(after, n, i, j) == scaled(
            entry(before, n, i, j),
            col_sum(before, n, j, n),
        )
}

/// Whether `after` is `before` after one sweep: rows, then columns.
pub open spec fn swept(before: Seq<u32>, after: Seq<u32>, n: int) -> bool {
    exists|mid: Seq<u32>| #[trigger] rows_normalised(before, mid, n) && cols_normalised(mid, after, n)
}

/// How far a row sum is from one.
pub open spec fn deviation(sum: int) -> int {
    if sum >= ONE {
        sum - ONE
    } else {
        ONE - sum
    }
}

/// The largest deviation of the first `k` row sums from one.
pub open spec fn residual_of(m: Seq<u32>, n: int, k: int) -> int
    decreases k,
{
    if k <= 0 {
        0
    } else {
        let before = residual_of(m, n, k - 1);
        let here = deviation(row_sum(m, n, k - 1, n));
        if here > before {
            here
        } else {
            before
        }
    }
}

/// Whether every entry of the matrix is in the unit interval.
pub open spec fn entries_in_unit(m: Seq<u32>, n: int) -> bool {
    forall|i: int, j: int| 0 <= i < n && 0 <= j < n ==> #[trigger] entry(m, n, i, j) <= ONE
}

/// What a projection reports.
#[derive(Clone, Copy, Debug, PartialEq, Eq, Structural)]
pub struct ConvergenceResult {
    /// Whether the residual fell below the tolerance within the iterations allowed.
    pub converged: bool,
    /// The number of sweeps performed.
    pub iterations: u32,
    /// The largest deviation of a row sum from one after the last sweep.
    pub residual: u64,
}

/// The projector: a tolerance and a cap on the number of sweeps.
#[derive(Clone, Copy, Debug, PartialEq, Eq, Structural)]
pub struct SinkhornKnopp {
    /// The residual below which the projection stops.
    pub tolerance: u32,
    /// The most sweeps that a projection performs.
    pub max_iterations: u32,
}

impl Default for SinkhornKnopp {
    fn default() -> (sk: Self)
        ensures
            sk.tolerance == 1,
            sk.max_iterations == 20,
    {
        SinkhornKnopp { tolerance: 1, max_iterations: 20 }
    }
}

/// A cell of a square matrix lies within the matrix.
pub proof fn lemma_cell_in_range(n: int, i: int, j: int)
    requires
        0 <= i < n,
        0 <= j < n,
    ensures
        0 <= i * n + j < n * n,
{
    assert(0 <= i * n && i * n + n <= n * n) by (nonlinear_arith)
        requires
            0 <= i < n,
    ;
}

/// Different cells lie at different places.
pub proof fn lemma_cells_apart(n: int, a: int, b: int, i: int, j: int)
    requires
        0 <= a < n,
        0 <= b < n,
        0 <= i < n,
        0 <= j < n,
        a != i || b != j,
    ensures
        a * n + b != i * n + j,
{
    if a < i {
        assert(a * n + n <= i * n) by (nonlinear_arith)
            requires
                0 <= a < i,
                0 <= n,
        ;
    } else if a > i {
        assert(i * n + n <= a * n) by (nonlinear_arith)
            requires
                0 <= i < a,
                0 <= n,
        ;
    }
}

/// A row sum only looks at its own row.
proof fn lemma_row_sum_agrees(m: Seq<u32>, m2: Seq<u32>, n: int, i: int, k: int)
    requires
        forall|j: int| 0 <= j < k ==> #[trigger] entry(m, n, i, j) == entry(m2, n, i, j),
    ensures
        row_sum(m, n, i, k) == row_sum(m2, n, i, k),
    decreases k,
{
    if k > 0 {
        lemma_row_sum_agrees(m, m2, n, i, k - 1);
        assert(entry(m, n, i, k - 1) == entry(m2, n, i, k - 1));
    }
}

/// A column sum only looks at its own column.
proof fn lemma_col_sum_agrees(m: Seq<u32>, m2: Seq<u32>, n: int, j: int, k: int)
    requires
        forall|i: int| 0 <= i < k ==> #[trigger] entry(m, n, i, j) == entry(m2, n, i, j),
    ensures
        col_sum(m, n, j, k) == col_sum(m2, n, j, k),
    decreases k,
{
    if k > 0 {
        lemma_col_sum_agrees(m, m2, n, j, k - 1);
        assert(entry(m, n, k - 1, j) == entry(m2, n, k - 1, j));
    }
}

/// Each entry of a row is at most the sum of the row.
proof fn lemma_row_sum_bounds(m: Seq<u32>, n: int, i: int, k: int)
    ensures
        0 <= row_sum(m, n, i, k),
        row_sum(m, n, i, k) <= k * 0xffff_ffff || k < 0,
        forall|j: int| 0 <= j < k ==> #[trigger] entry(m, n, i, j) <= row_sum(m, n, i, k),
    decreases k,
{
    if k > 0 {
        lemma_row_sum_bounds(m, n, i, k - 1);
    }
}

/// Each entry of a column is at most the sum of the column.
proof fn lemma_col_sum_bounds(m: Seq<u32>, n: int, j: int, k: int)
    ensures
        0 <= col_sum(m, n, j, k),
        col_sum(m, n, j, k) <= k * 0xffff_ffff || k < 0,
        forall|i: int| 0 <= i < k ==> #[trigger] entry(m, n, i, j) <= col_sum(m, n, j, k),
    decreases k,
{
    if k > 0 {
        lemma_col_sum_bounds(m, n, j, k - 1);
    }
}

/// An entry divided by the sum of its line is in the unit interval.
proof fn lemma_scaled_in_unit(x: int, sum: int)
    requires
        0 <= x <= sum,
        0 < sum,
    ensures
        0 <= scaled(x, sum) <= ONE,
{
    assert(0 <= x * 1_000_000 / sum <= 1_000_000) by (nonlinear_arith)
        requires
            0 <= x <= sum,
            0 < sum,
    ;
}

/// After the columns have been normalised, every entry is in the unit interval.
pub proof fn lemma_cols_normalised_in_unit(before: Seq<u32>, after: Seq<u32>, n: int)
    requires
        cols_normalised(before, after, n),
    ensures
        entries_in_unit(after, n),
{
    assert forall|i: int, j: int| 0 <= i < n && 0 <= j < n implies #[trigger] entry(after, n, i, j)
        <= ONE by {
        lemma_col_sum_bounds(before, n, j, n);
        let sum = col_sum(before, n, j, n);
        assert(entry(before, n, i, j) <= sum);
        if sum > 0 {
            lemma_scaled_in_unit(entry(before, n, i, j), sum);
        }
    }
}

/// Divides each row by its sum.
fn normalise_rows(m: &mut [u32], n: usize)
    requires
        old(m)@.len() == n * n,
    ensures
        rows_normalised(old(m)@, final(m)@, n as int),
{
    let len: usize = m.len();
    let mut i: usize = 0;
    while i < n
        invariant
            i <= n,
            n * n == len,
            m@.len() == old(m)@.len() == n * n,
            forall|a: int, b: int|
                0 <= a < i && 0 <= b < n ==> #[trigger] entry(m@, n as int, a, b) == scaled(
                    entry(old(m)@, n as int, a, b),
                    row_sum(old(m)@, n as int, a, n as int),
                ),
            forall|a: int, b: int|
                i <= a < n && 0 <= b < n ==> #[trigger] entry(m@, n as int, a, b) == entry(
                    old(m)@,
                    n as int,
                    a,
                    b,
                ),
        decreases n - i,
    {
        let ghost start = m@;
        let mut sum: u64 = 0;
        let mut j: usize = 0;
        while j < n
            invariant
                i < n,
                j <= n,
                n * n == len,
                m@ == start,
                m@.len() == n * n,
                sum == row_sum(m@, n as int, i as int, j as int),
                sum <= j * 0xffff_ffff,
            decreases n - j,
        {
            proof {
                lemma_cell_in_range(n as int, i as int, j as int);
                assert(0 <= i * n <= i * n + j) by (nonlinear_arith)
                    requires
                        0 <= i,
                        0 <= n,
                        0 <= j,
                ;
                assert(j * 0xffff_ffff + 0xffff_ffff <= u64::MAX) by (nonlinear_arith)
                    requires
                        0 <= j < n,
                        n * n <= u64::MAX,
                ;
            }
            sum = sum + m[i * n + j] as u64;
            j = j + 1;
        }
        proof {
            lemma_row_sum_agrees(start, old(m)@, n as int, i as int, n as int);
            lemma_row_sum_bounds(start, n as int, i as int, n as int);
        }
        if sum > 0 {
            let mut j: usize = 0;
            while j < n
                invariant
                    i < n,
                    j <= n,
                    n * n == len,
                    m@.len() == start.len() == n * n,
                    0 < sum == row_sum(start, n as int, i as int, n as int),
                    forall|b: int|
                        0 <= b < n ==> #[trigger] entry(start, n as int, i as int, b) <= sum,
                    forall|a: int, b: int|
                        0 <= a < n && 0 <= b < n && a != i ==> #[trigger] entry(m@, n as int, a, b)
                            == entry(start, n as int, a, b),
                    forall|b: int|
                        0 <= b < j ==> #[trigger] entry(m@, n as int, i as int, b) == scaled(
                            entry(start, n as int, i as int, b),
                            sum as int,
                        ),
                    forall|b: int|
                        j <= b < n ==> #[trigger] entry(m@, n as int, i as int, b) == entry(
                            start,
                            n as int,
                            i as int,
                            b,
                        ),
                decreases n - j,
            {
                let ghost held = m@;
                proof {
                    lemma_cell_in_range(n as int, i as int, j as int);
                    assert(0 <= i * n <= i * n + j) by (nonlinear_arith)
                        requires
                            0 <= i,
                            0 <= n,
                            0 <= j,
                    ;
                    assert(entry(held, n as int, i as int, j as int) == entry(
                        start,
                        n as int,
                        i as int,
                        j as int,
                    ));
                    lemma_scaled_in_unit(entry(start, n as int, i as int, j as int), sum as int);
                }
                let x: u64 = m[i * n + j] as u64;
                let y: u64 = x * 1_000_000 / sum;
                m[i * n + j] = y as u32;
                proof {
                    assert forall|a: int, b: int|
                        0 <= a < n && 0 <= b < n && (a != i || b != j) implies #[trigger] entry(
                        m@,
                        n as int,
                        a,
                        b,
                    ) == entry(held, n as int, a, b) by {
                        lemma_cells_apart(n as int, a, b, i as int, j as int);
                        lemma_cell_in_range(n as int, a, b);
                    }
                }
                j = j + 1;
            }
        }
        i = i + 1;
    }
}

/// Divides each column by its sum.
fn normalise_cols(m: &mut [u32], n: usize)
    requires
        old(m)@.len() == n * n,
    ensures
        cols_normalised(old(m)@, final(m)@, n as int),
{
    let len: usize = m.len();
    let mut j: usize = 0;
    while j < n
        invariant
            j <= n,
            n * n == len,
            m@.len() == old(m)@.len() == n * n,
            forall|a: int, b: int|
                0 <= a < n && 0 <= b < j ==> #[trigger] entry(m@, n as int, a, b) == scaled(
                    entry(old(m)@, n as int, a, b),
                    col_sum(old(m)@, n as int, b, n as int),
                ),
            forall|a: int, b: int|
                0 <= a < n && j <= b < n ==> #[trigger] entry(m@, n as int, a, b) == entry(
                    old(m)@,
                    n as int,
                    a,
                    b,
                ),
        decreases n - j,
    {
        let ghost start = m@;
        let mut sum: u64 = 0;
        let mut i: usize = 0;
        while i < n
            invariant
                j < n,
                i <= n,
                n * n == len,
                m@ == start,
                m@.len() == n * n,
                sum == col_sum(m@, n as int, j as int, i as int),
                sum <= i * 0xffff_ffff,
            decreases n - i,
        {
            proof {
                lemma_cell_in_range(n as int, i as int, j as int);
                assert(0 <= i * n <= i * n + j) by (nonlinear_arith)
                    requires
                        0 <= i,
                        0 <= n,
                        0 <= j,
                ;
                assert(i * 0xffff_ffff + 0xffff_ffff <= u64::MAX) by (nonlinear_arith)
                    requires
                        0 <= i < n,
                        n * n <= u64::MAX,
                ;
            }
            sum = sum + m[i * n + j] as u64;
            i = i + 1;
        }
        proof {
            lemma_col_sum_agrees(start, old(m)@, n as int, j as int, n as int);
            lemma_col_sum_bounds(start, n as int, j as int, n as int);
        }
        if sum > 0 {
            let mut i: usize = 0;
            while i < n
                invariant
                    j < n,
                    i <= n,
                    n * n == len,
                    m@.len() == start.len() == n * n,
                    0 < sum == col_sum(start, n as int, j as int, n as int),
                    forall|a: int|
                        0 <= a < n ==> #[trigger] entry(start, n as int, a, j as int) <= sum,
                    forall|a: int, b: int|
                        0 <= a < n && 0 <= b < n && b != j ==> #[trigger] entry(m@, n as int, a, b)
                            == entry(start, n as int, a, b),
                    forall|a: int|
                        0 <= a < i ==> #[trigger] entry(m@, n as int, a, j as int) == scaled(
                            entry(start, n as int, a, j as int),
                            sum as int,
                        ),
                    forall|a: int|
                        i <= a < n ==> #[trigger] entry(m@, n as int, a, j as int) == entry(
                            start,
                            n as int,
                            a,
                            j as int,
                        ),
                decreases n - i,
            {
                let ghost held = m@;
                proof {
                    lemma_cell_in_range(n as int, i as int, j as int);
                    assert(0 <= i * n <= i * n + j) by (nonlinear_arith)
                        requires
                            0 <= i,
                            0 <= n,
                            0 <= j,
                    ;
                    assert(entry(held, n as int, i as int, j as int) == entry(
                        start,
                        n as int,
                        i as int,
                        j as int,
                    ));
                    lemma_scaled_in_unit(entry(start, n as int, i as int, j as int), sum as int);
                }
                let x: u64 = m[i * n + j] as u64;
                let y: u64 = x * 1_000_000 / sum;
                m[i * n + j] = y as u32;
                proof {
                    assert forall|a: int, b: int|
                        0 <= a < n && 0 <= b < n && (a != i || b != j) implies #[trigger] entry(
                        m@,
                        n as int,
                        a,
                        b,
                    ) == entry(held, n as int, a, b) by {
                        lemma_cells_apart(n as int, a, b, i as int, j as int);
                        lemma_cell_in_range(n as int, a, b);
                    }
                }
                i = i + 1;
            }
        }
        j = j + 1;
    }
}

/// The largest deviation of a row sum from one.
fn residual(m: &[u32], n: usize) -> (r: u64)
    requires
        m@.len() == n * n,
    ensures
        r == residual_of(m@, n as int, n as int),
{
    let len: usize = m.len();
    let mut r: u64 = 0;
    let mut i: usize = 0;
    while i < n
        invariant
            i <= n,
            n * n == len,
            m@.len() == n * n,
            r == residual_of(m@, n as int, i as int),
        decreases n - i,
    {
        let mut sum: u64 = 0;
        let mut j: usize = 0;
        while j < n
            invariant
                i < n,
                j <= n,
                n * n == len,
                m@.len() == n * n,
                sum == row_sum(m@, n as int, i as int, j as int),
                sum <= j * 0xffff_ffff,
            decreases n - j,
        {
            proof {
                lemma_cell_in_range(n as int, i as int, j as int);
                assert(0 <= i * n <= i * n + j) by (nonlinear_arith)
                    requires
                        0 <= i,
                        0 <= n,
                        0 <= j,
                ;
                assert(j * 0xffff_ffff + 0xffff_ffff <= u64::MAX) by (nonlinear_arith)
                    requires
                        0 <= j < n,
                        n * n <= u64::MAX,
                ;
            }
            sum = sum + m[i * n + j] as u64;
            j = j + 1;
        }
        let here: u64 = if sum >= ONE as u64 {
            sum - ONE as u64
        } else {
            ONE as u64 - sum
        };
        if here > r {
            r = here;
        }
        i = i + 1;
    }
    r
}

/// Whether a projection that is allowed `budget` sweeps takes `before` to
/// `after` in `iterations` sweeps: it sweeps until the residual is below
/// the tolerance, which is what `converged` says, or the budget is spent.
pub open spec fn projects(
    before: Seq<u32>,
    after: Seq<u32>,
    n: int,
    tolerance: int,
    budget: int,
    iterations: int,
    converged: bool,
) -> bool
    decreases budget,
{
    if budget <= 0 {
        after == before && iterations == 0 && !converged
    } else {
        exists|next: Seq<u32>| #[trigger]
            swept(before, next, n) && (if residual_of(next, n, n) < tolerance {
                after == next && iterations == 1 && converged
            } else {
                projects(next, after, n, tolerance, budget - 1, iterations - 1, converged)
            })
    }
}

/// Whether `flat` holds the square matrix `m` row by row.
pub open spec fn is_flat<const N: usize>(m: [[u32; N]; N], flat: Seq<u32>) -> bool {
    &&& flat.len() == N * N
    &&& forall|i: int, j: int|
        0 <= i < N && 0 <= j < N ==> #[trigger] entry(flat, N as int, i, j) == m@[i]@[j]
}

impl SinkhornKnopp {
    /// A projector with the given tolerance and cap on the sweeps.
    pub fn new(tolerance: u32, max_iterations: u32) -> (sk: Self)
        ensures
            sk.tolerance == tolerance,
            sk.max_iterations == max_iterations,
    {
        SinkhornKnopp { tolerance, max_iterations }
    }

    /// Projects the `n` by `n` matrix held row by row in `m`, in place.
    ///
    /// The matrix is swept until the residual is below the tolerance or
    /// the cap on the sweeps is reached. After at least one sweep every
    /// entry is in the unit interval.
    pub fn project_flat(&self, m: &mut [u32], n: usize) -> (result: ConvergenceResult)
        requires
            old(m)@.len() == n * n,
        ensures
            projects(
                old(m)@,
                final(m)@,
                n as int,
                self.tolerance as int,
                self.max_iterations as int,
                result.iterations as int,
                result.converged,
            ),
            result.residual == residual_of(final(m)@, n as int, n as int),
            result.iterations >= 1 ==> entries_in_unit(final(m)@, n as int),
            final(m)@.len() == old(m)@.len(),
    {
        let mut iter: u32 = 0;
        while iter < self.max_iterations
            invariant
                iter <= self.max_iterations,
                m@.len() == old(m)@.len() == n * n,
                iter >= 1 ==> entries_in_unit(m@, n as int),
                forall|after: Seq<u32>, iterations: int, converged: bool| #[trigger]
                    projects(
                        m@,
                        after,
                        n as int,
                        self.tolerance as int,
                        self.max_iterations - iter,
                        iterations,
                        converged,
                    ) ==> projects(
                        old(m)@,
                        after,
                        n as int,
                        self.tolerance as int,
                        self.max_iterations as int,
                        iterations + iter,
                        converged,
                    ),
            decreases self.max_iterations - iter,
        {
            let ghost before = m@;
            normalise_rows(m, n);
            let ghost mid = m@;
            normalise_cols(m, n);
            let r: u64 = residual(m, n);
            proof {
                assert(rows_normalised(before, mid, n as int) && cols_normalised(mid, m@, n as int));
                assert(swept(before, m@, n as int));
                lemma_cols_normalised_in_unit(mid, m@, n as int);
            }
            if r < self.tolerance as u64 {
                proof {
                    assert(projects(
                        before,
                        m@,
                        n as int,
                        self.tolerance as int,
                        self.max_iterations - iter,
                        1,
                        true,
                    ));
                }
                return ConvergenceResult { converged: true, iterations: iter + 1, residual: r };
            }
            proof {
                let now = m@;
                assert forall|after: Seq<u32>, iterations: int, converged: bool| #[trigger]
                    projects(
                        now,
                        after,
                        n as int,
                        self.tolerance as int,
                        self.max_iterations - (iter + 1),
                        iterations,
                        converged,
                    ) implies projects(
                    old(m)@,
                    after,
                    n as int,
                    self.tolerance as int,
                    self.max_iterations as int,
                    iterations + iter + 1,
                    converged,
                ) by {
                    assert(swept(before, now, n as int));
                    assert(projects(
                        before,
                        after,
                        n as int,
                        self.tolerance as int,
                        self.max_iterations - iter,
                        iterations + 1,
                        converged,
                    ));
                }
            }
            iter = iter + 1;
        }
        let r: u64 = residual(m, n);
        proof {
            assert(projects(
                m@,
                m@,
                n as int,
                self.tolerance as int,
                self.max_iterations - iter,
                0,
                false,
            ));
        }
        ConvergenceResult { converged: false, iterations: self.max_iterations, residual: r }
    }

    /// Projects a square matrix in place.
    pub fn project<const N: usize>(&self, m: &mut [[u32; N]; N]) -> (result: ConvergenceResult)
        requires
            N * N <= usize::MAX,
        ensures
            exists|before: Seq<u32>, after: Seq<u32>|
                is_flat(*old(m), before) && is_flat(*final(m), after) && #[trigger] projects(
                    before,
                    after,
                    N as int,
                    self.tolerance as int,
                    self.max_iterations as int,
                    result.iterations as int,
                    result.converged,
                ) && result.residual == residual_of(after, N as int, N as int),
    {
        let mut flat: Vec<u32> = Vec::new();
        let mut i: usize = 0;
        while i < N
            invariant
                i <= N,
                N * N <= usize::MAX,
                flat@.len() == i * N,
                forall|a: int, b: int|
                    0 <= a < i && 0 <= b < N ==> #[trigger] entry(flat@, N as int, a, b) == m@[a]@[b],
            decreases N - i,
        {
            let mut j: usize = 0;
            while j < N
                invariant
                    i < N,
                    j <= N,
                    N * N <= usize::MAX,
                    flat@.len() == i * N + j,
                    forall|a: int, b: int|
                        0 <= a < i && 0 <= b < N ==> #[trigger] entry(flat@, N as int, a, b)
                            == m@[a]@[b],
                    forall|b: int|
                        0 <= b < j ==> #[trigger] entry(flat@, N as int, i as int, b) == m@[i as int]@[b],
                decreases N - j,
            {
                let ghost held = flat@;
                flat.push(m[i][j]);
                proof {
                    assert forall|a: int, b: int| 0 <= a < i && 0 <= b < N implies #[trigger] entry(
                        flat@,
                        N as int,
                        a,
                        b,
                    ) == m@[a]@[b] by {
                        lemma_cell_in_range(N as int, a, b);
                        assert(a * N + b < i * N) by (nonlinear_arith)
                            requires
                                0 <= a < i,
                                0 <= b < N,
                        ;
                        assert(entry(held, N as int, a, b) == m@[a]@[b]);
                    }
                    assert forall|b: int| 0 <= b < j + 1 implies #[trigger] entry(
                        flat@,
                        N as int,
                        i as int,
                        b,
                    ) == m@[i as int]@[b] by {
                        if b < j {
                            assert(entry(held, N as int, i as int, b) == m@[i as int]@[b]);
                        }
                    }
                }
                j = j + 1;
            }
            assert(i * N + N == (i + 1) * N) by (nonlinear_arith);
            i = i + 1;
        }
        let ghost before = flat@;
        let result: ConvergenceResult = self.project_flat(flat.as_mut_slice(), N);
        let ghost after = flat@;
        let ghost start = *m;
        let mut i: usize = 0;
        while i < N
            invariant
                i <= N,
                N * N <= usize::MAX,
                flat@ == after,
                after.len() == N * N,
                forall|a: int, b: int|
                    0 <= a < i && 0 <= b < N ==> #[trigger] m@[a]@[b] == entry(after, N as int, a, b),
            decreases N - i,
        {
            let mut j: usize = 0;
            while j < N
                invariant
                    i < N,
                    j <= N,
                    N * N <= usize::MAX,
                    flat@ == after,
                    after.len() == N * N,
                    forall|a: int, b: int|
                        0 <= a < i && 0 <= b < N ==> #[trigger] m@[a]@[b] == entry(
                            after,
                            N as int,
                            a,
                            b,
                        ),
                    forall|b: int|
                        0 <= b < j ==> #[trigger] m@[i as int]@[b] == entry(after, N as int, i as int, b),
                decreases N - j,
            {
                proof {
                    lemma_cell_in_range(N as int, i as int, j as int);
                    assert(0 <= i * N <= i * N + j) by (nonlinear_arith)
                        requires
                            0 <= i,
                            0 <= N,
                            0 <= j,
                    ;
                }
                m[i][j] = flat[i * N + j];
                j = j + 1;
            }
            i = i + 1;
        }
        proof {
            assert(is_flat(*old(m), before));
            assert(is_flat(*m, after));
        }
        result
    }
}

/// The sum of a normalised column, times the sum that it was divided by,
/// is at most that sum times one.
proof fn lemma_col_sum_scaled(before: Seq<u32>, after: Seq<u32>, n: int, j: int, k: int, sum: int)
    requires
        0 < sum,
        0 <= k <= n,
        0 <= j < n,
        forall|i: int|
            0 <= i < n ==> #[trigger] entry(after, n, i, j) == scaled(entry(before, n, i, j), sum),
    ensures
        col_sum(after, n, j, k) * sum <= ONE * col_sum(before, n, j, k),
    decreases k,
{
    if k > 0 {
        lemma_col_sum_scaled(before, after, n, j, k - 1, sum);
        let x = entry(before, n, k - 1, j);
        let y = entry(after, n, k - 1, j);
        let head = col_sum(after, n, j, k - 1);
        let head_before = col_sum(before, n, j, k - 1);
        assert(y == x * 1_000_000 / sum);
        assert((head + y) * sum <= 1_000_000 * (head_before + x)) by (nonlinear_arith)
            requires
                0 < sum,
                0 <= x,
                y == x * 1_000_000 / sum,
                head * sum <= 1_000_000 * head_before,
        ;
    }
}

/// After the columns have been normalised, no column sums to more than one.
pub proof fn lemma_col_sums_at_most_one(before: Seq<u32>, after: Seq<u32>, n: int, j: int)
    requires
        cols_normalised(before, after, n),
        0 <= j < n,
    ensures
        0 <= col_sum(after, n, j, n) <= ONE,
{
    let sum = col_sum(before, n, j, n);
    lemma_col_sum_bounds(before, n, j, n);
    lemma_col_sum_bounds(after, n, j, n);
    if sum > 0 {
        assert forall|i: int| 0 <= i < n implies #[trigger] entry(after, n, i, j) == scaled(
            entry(before, n, i, j),
            sum,
        ) by {}
        lemma_col_sum_scaled(before, after, n, j, n, sum);
        let total = col_sum(after, n, j, n);
        assert(total <= 1_000_000) by (nonlinear_arith)
            requires
                0 < sum,
                total * sum <= 1_000_000 * sum,
        ;
    } else {
        assert forall|i: int| 0 <= i < n implies #[trigger] entry(after, n, i, j) == entry(before, n, i, j) by {}
        lemma_col_sum_agrees(after, before, n, j, n);
    }
}

/// Whether `compact` holds, row by row, the first `n` rows and columns of
/// the matrix `m` of row stride `stride`.
pub open spec fn is_block(m: Seq<u32>, stride: int, n: int, compact: Seq<u32>) -> bool {
    &&& compact.len() == n * n
    &&& forall|i: int, j: int|
        0 <= i < n && 0 <= j < n ==> #[trigger] entry(compact, n, i, j) == entry(m, stride, i, j)
}

/// The entry of a padded matrix whose first `n` rows and columns are
/// `compact` and which is the identity elsewhere.
pub open spec fn padded_entry(compact: Seq<u32>, n: int, i: int, j: int) -> int {
    if i < n && j < n {
        entry(compact, n, i, j)
    } else if i == j {
        ONE as int
    } else {
        0
    }
}

/// Whether `projected` is the projection of the first `n` rows and columns
/// of `raw`, padded with the identity: both matrices have the row stride
/// `stride`.
pub open spec fn block_projected(
    raw: Seq<u32>,
    projected: Seq<u32>,
    stride: int,
    n: int,
    tolerance: int,
    budget: int,
) -> bool {
    exists|before: Seq<u32>, after: Seq<u32>, iterations: int, converged: bool|
        is_block(raw, stride, n, before) && #[trigger] projects(
            before,
            after,
            n,
            tolerance,
            budget,
            iterations,
            converged,
        ) && forall|i: int, j: int|
            0 <= i < stride && 0 <= j < stride ==> #[trigger] entry(projected, stride, i, j)
                == padded_entry(after, n, i, j)
}

impl SinkhornKnopp {
    /// Projects the first `n` rows and columns of the matrix `raw` of row
    /// stride `stride` into `projected`, and pads `projected` with the
    /// identity.
    pub fn project_block(&self, raw: &[u32], stride: usize, n: usize, projected: &mut [u32])
        requires
            raw@.len() == stride * stride,
            old(projected)@.len() == stride * stride,
            n <= stride,
        ensures
            final(projected)@.len() == stride * stride,
            block_projected(
                raw@,
                final(projected)@,
                stride as int,
                n as int,
                self.tolerance as int,
                self.max_iterations as int,
            ),
    {
        let len: usize = raw.len();
        assert(n * n <= stride * stride) by (nonlinear_arith)
            requires
                0 <= n <= stride,
        ;
        let mut compact: Vec<u32> = Vec::new();
        let mut i: usize = 0;
        while i < n
            invariant
                i <= n <= stride,
                stride * stride == len,
                raw@.len() == len,
                n * n <= len,
                compact@.len() == i * n,
                forall|a: int, b: int|
                    0 <= a < i && 0 <= b < n ==> #[trigger] entry(compact@, n as int, a, b) == entry(
                        raw@,
                        stride as int,
                        a,
                        b,
                    ),
            decreases n - i,
        {
            let mut j: usize = 0;
            while j < n
                invariant
                    i < n <= stride,
                    j <= n,
                    stride * stride == len,
                    raw@.len() == len,
                    n * n <= len,
                    compact@.len() == i * n + j,
                    forall|a: int, b: int|
                        0 <= a < i && 0 <= b < n ==> #[trigger] entry(compact@, n as int, a, b)
                            == entry(raw@, stride as int, a, b),
                    forall|b: int|
                        0 <= b < j ==> #[trigger] entry(compact@, n as int, i as int, b) == entry(
                            raw@,
                            stride as int,
                            i as int,
                            b,
                        ),
                decreases n - j,
            {
                let ghost held = compact@;
                proof {
                    lemma_cell_in_range(stride as int, i as int, j as int);
                    assert(0 <= i * stride <= i * stride + j) by (nonlinear_arith)
                        requires
                            0 <= i,
                            0 <= stride,
                            0 <= j,
                    ;
                }
                compact.push(raw[i * stride + j]);
                proof {
                    assert forall|a: int, b: int| 0 <= a < i && 0 <= b < n implies #[trigger] entry(
                        compact@,
                        n as int,
                        a,
                        b,
                    ) == entry(raw@, stride as int, a, b) by {
                        assert(a * n + b < i * n) by (nonlinear_arith)
                            requires
                                0 <= a < i,
                                0 <= b < n,
                        ;
                        assert(0 <= a * n) by (nonlinear_arith)
                            requires
                                0 <= a,
                                0 <= n,
                        ;
                        assert(entry(held, n as int, a, b) == entry(raw@, stride as int, a, b));
                    }
                    assert forall|b: int| 0 <= b < j + 1 implies #[trigger] entry(
                        compact@,
                        n as int,
                        i as int,
                        b,
                    ) == entry(raw@, stride as int, i as int, b) by {
                        assert(0 <= i * n) by (nonlinear_arith)
                            requires
                                0 <= i,
                                0 <= n,
                        ;
                        if b < j {
                            assert(entry(held, n as int, i as int, b) == entry(
                                raw@,
                                stride as int,
                                i as int,
                                b,
                            ));
                        }
                    }
                }
                j = j + 1;
            }
            assert(i * n + n == (i + 1) * n) by (nonlinear_arith);
            i = i + 1;
        }
        let ghost before = compact@;
        let result: ConvergenceResult = self.project_flat(compact.as_mut_slice(), n);
        let ghost after = compact@;
        let mut i: usize = 0;
        while i < stride
            invariant
                i <= stride,
                n <= stride,
                stride * stride == len,
                n * n <= len,
                projected@.len() == len,
                compact@ == after,
                after.len() == n * n,
                forall|a: int, b: int|
                    0 <= a < i && 0 <= b < stride ==> #[trigger] entry(projected@, stride as int, a, b)
                        == padded_entry(after, n as int, a, b),
            decreases stride - i,
        {
            let mut j: usize = 0;
            while j < stride
                invariant
                    i < stride,
                    j <= stride,
                    n <= stride,
                    stride * stride == len,
                    n * n <= len,
                    projected@.len() == len,
                    compact@ == after,
                    after.len() == n * n,
                    forall|a: int, b: int|
                        0 <= a < i && 0 <= b < stride ==> #[trigger] entry(
                            projected@,
                            stride as int,
                            a,
                            b,
                        ) == padded_entry(after, n as int, a, b),
                    forall|b: int|
                        0 <= b < j ==> #[trigger] entry(projected@, stride as int, i as int, b)
                            == padded_entry(after, n as int, i as int, b),
                decreases stride - j,
            {
                let ghost held = projected@;
                proof {
                    lemma_cell_in_range(stride as int, i as int, j as int);
                    assert(0 <= i * stride <= i * stride + j) by (nonlinear_arith)
                        requires
                            0 <= i,
                            0 <= stride,
                            0 <= j,
                    ;
                    if i < n && j < n {
                        lemma_cell_in_range(n as int, i as int, j as int);
                        assert(0 <= i * n <= i * n + j) by (nonlinear_arith)
                            requires
                                0 <= i,
                                0 <= n,
                                0 <= j,
                        ;
                    }
                }
                let value: u32 = if i < n && j < n {
                    compact[i * n + j]
                } else if i == j {
                    ONE
                } else {
                    0
                };
                projected[i * stride + j] = value;
                proof {
                    assert forall|a: int, b: int|
                        0 <= a < stride && 0 <= b < stride && (a != i || b != j) implies #[trigger] entry(
                        projected@,
                        stride as int,
                        a,
                        b,
                    ) == entry(held, stride as int, a, b) by {
                        lemma_cells_apart(stride as int, a, b, i as int, j as int);
                        lemma_cell_in_range(stride as int, a, b);
                    }
                }
                j = j + 1;
            }
            i = i + 1;
        }
        proof {
            assert(is_block(raw@, stride as int, n as int, before));
            assert(projects(
                before,
                after,
                n as int,
                self.tolerance as int,
                self.max_iterations as int,
                result.iterations as int,
                result.converged,
            ));
        }
    }
}

} // verus!
