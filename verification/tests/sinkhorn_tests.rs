use ccf_core::sinkhorn::{ConvergenceResult, SinkhornKnopp};

/// Floats as fixed-point units.
fn units(values: &[f32]) -> Vec<u32> {
    values.iter().map(|&x| (x as f64 * 1_000_000.0).round() as u32).collect()
}

/// Fixed-point units as floats.
fn floats(values: &[u32]) -> Vec<f32> {
    values.iter().map(|&v| (v as f64 / 1_000_000.0) as f32).collect()
}

/// Asserts that a flat n by n matrix (row stride = row_stride) is doubly stochastic.
fn assert_doubly_stochastic(m: &[f32], n: usize, row_stride: usize, tol: f32) {
    for i in 0..n {
        let rs: f32 = (0..n).map(|j| m[i * row_stride + j]).sum();
        assert!((rs - 1.0).abs() < tol, "row {} sum = {:.6} (expected 1.0 +- {:.0e})", i, rs, tol);
    }
    for j in 0..n {
        let cs: f32 = (0..n).map(|i| m[i * row_stride + j]).sum();
        assert!((cs - 1.0).abs() < tol, "col {} sum = {:.6} (expected 1.0 +- {:.0e})", j, cs, tol);
    }
}

#[test]
fn test_transition_blend_stays_in_polytope() {
    let sk = SinkhornKnopp::default();

    let mut h_old = units(&[2.0_f32, 1.0, 3.0, 3.0, 2.0, 1.0, 1.0, 3.0, 2.0]);
    let mut h_new = units(&[1.0_f32, 4.0, 1.0, 3.0, 1.0, 2.0, 2.0, 1.0, 3.0]);
    sk.project_flat(&mut h_old, 3);
    sk.project_flat(&mut h_new, 3);
    let h_old = floats(&h_old);
    let h_new = floats(&h_new);

    assert_doubly_stochastic(&h_old, 3, 3, 1e-5);
    assert_doubly_stochastic(&h_new, 3, 3, 1e-5);

    for &alpha in &[0.0_f32, 0.25, 0.5, 0.75, 1.0] {
        let mut blend = [0.0f32; 9];
        for i in 0..9 {
            blend[i] = (1.0 - alpha) * h_old[i] + alpha * h_new[i];
        }
        assert_doubly_stochastic(&blend, 3, 3, 1e-4);
    }
}

#[test]
fn one_sweep_exact_values() {
    // rows [1, 3] and [2, 2]
    let mut m = units(&[1.0, 3.0, 2.0, 2.0]);
    let result = SinkhornKnopp::new(1, 1).project_flat(&mut m, 2);
    // rows become [0.25, 0.75] and [0.5, 0.5]; the columns then sum to 0.75 and 1.25
    assert_eq!(m, vec![333_333, 600_000, 666_666, 400_000]);
    assert_eq!(result, ConvergenceResult { converged: false, iterations: 1, residual: 66_667 });
}

#[test]
fn no_sweep_leaves_the_matrix() {
    let mut m = units(&[1.0, 3.0, 2.0, 2.0]);
    let result = SinkhornKnopp::new(1, 0).project_flat(&mut m, 2);
    assert_eq!(m, units(&[1.0, 3.0, 2.0, 2.0]));
    assert_eq!(result, ConvergenceResult { converged: false, iterations: 0, residual: 3_000_000 });
}

#[test]
fn a_stochastic_matrix_converges_at_once() {
    let mut m = units(&[1.0, 0.0, 0.0, 1.0]);
    let result = SinkhornKnopp::default().project_flat(&mut m, 2);
    assert_eq!(m, units(&[1.0, 0.0, 0.0, 1.0]));
    assert_eq!(result, ConvergenceResult { converged: true, iterations: 1, residual: 0 });
    let mut half = units(&[0.5, 0.5, 0.5, 0.5]);
    let result = SinkhornKnopp::default().project_flat(&mut half, 2);
    assert_eq!(half, units(&[0.5, 0.5, 0.5, 0.5]));
    assert!(result.converged);
}

#[test]
fn a_line_of_zeros_is_left_alone() {
    let mut m = units(&[0.0, 0.0, 3.0, 1.0]);
    let result = SinkhornKnopp::new(1, 1).project_flat(&mut m, 2);
    assert_eq!(m, units(&[0.0, 0.0, 1.0, 1.0]));
    assert_eq!(result.iterations, 1);
    assert_eq!(result.residual, 1_000_000);
    let mut empty: Vec<u32> = Vec::new();
    let result = SinkhornKnopp::default().project_flat(&mut empty, 0);
    assert_eq!(result, ConvergenceResult { converged: true, iterations: 1, residual: 0 });
}

#[test]
fn entries_and_column_sums_stay_within_one() {
    let mut seed: u64 = 99;
    for n in 1..7usize {
        let mut m: Vec<u32> = Vec::new();
        for _ in 0..n * n {
            seed = seed.wrapping_mul(6364136223846793005).wrapping_add(1442695040888963407);
            m.push(if seed % 5 == 0 { 0 } else { (seed >> 32) as u32 });
        }
        let result = SinkhornKnopp::default().project_flat(&mut m, n);
        assert!(result.iterations >= 1 && result.iterations <= 20);
        for &x in m.iter() {
            assert!(x <= 1_000_000);
        }
        for j in 0..n {
            let column: u64 = (0..n).map(|i| m[i * n + j] as u64).sum();
            assert!(column <= 1_000_000);
        }
    }
}

#[test]
fn square_and_flat_projection_agree() {
    let mut square = [[4_000_000u32, 1_000_000, 2_000_000], [1_000_000, 2_000_000, 3_000_000], [
        3_000_000, 4_000_000, 1_000_000,
    ]];
    let mut flat: Vec<u32> = square.iter().flatten().copied().collect();
    let sk = SinkhornKnopp::default();
    let a = sk.project(&mut square);
    let b = sk.project_flat(&mut flat, 3);
    assert_eq!(a, b);
    let again: Vec<u32> = square.iter().flatten().copied().collect();
    assert_eq!(again, flat);
    assert_doubly_stochastic(&floats(&flat), 3, 3, 1e-5);
}
