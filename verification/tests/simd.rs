use latent_db::arith::Op;
use latent_db::simd::{scalar_dot_f32, scalar_lut_row_sum_f32, simd_dot_f32, simd_lut_row_sum_f32};

/// The arithmetic of single-precision numbers, with one pattern for NaN.
fn unit(op: Op, a: u32, b: u32, c: u32) -> u32 {
    let (x, y, z) = (f32::from_bits(a), f32::from_bits(b), f32::from_bits(c));
    let r: f32 = match op {
        Op::Add => x + y,
        Op::Sub => x - y,
        Op::Mul => x * y,
        Op::Div => x / y,
        Op::Fma => x.mul_add(y, z),
        Op::Sqrt => x.sqrt(),
        Op::Ln => x.ln(),
        Op::Cos => x.cos(),
        Op::Acos => x.acos(),
        Op::Powf => x.powf(y),
        Op::Powi => x.powi(b as i32),
        Op::Count => (a as u64 + ((b as u64) << 32)) as f32,
    };
    if r.is_nan() {
        f32::NAN.to_bits()
    } else {
        r.to_bits()
    }
}

fn bits(v: &[f32]) -> Vec<u32> {
    v.iter().map(|x| x.to_bits()).collect()
}

fn num(x: u32) -> f32 {
    f32::from_bits(x)
}

fn reference_dot(a: &[f32], b: &[f32]) -> f32 {
    a.iter().zip(b.iter()).map(|(x, y)| x * y).sum()
}

fn reference_lut_row_sum(table: &[f32], row_base: &[u32], codes: &[u8]) -> f32 {
    row_base
        .iter()
        .zip(codes.iter())
        .map(|(&rb, &c)| table[(rb + c as u32) as usize])
        .sum()
}

/// Holds `f` against a plain dot product, for lengths from none to many
/// groups of four.
fn check_dot(f: impl Fn(&[u32], &[u32]) -> u32) {
    for len in [0usize, 1, 3, 4, 5, 8, 15, 16, 17, 64, 130] {
        let a: Vec<f32> = (0..len).map(|i| (i as f32 * 0.7).sin()).collect();
        let b: Vec<f32> = (0..len).map(|i| (i as f32 * 1.3).cos()).collect();
        let got = num(f(&bits(&a), &bits(&b)));
        let want = reference_dot(&a, &b);
        assert!(
            (got - want).abs() < 1e-3,
            "len={len}: got {got}, want {want}"
        );
    }
}

/// Holds `f` against a plain sum of table entries.
fn check_lut_row_sum(f: impl Fn(&[u32], &[u32], &[u8]) -> u32) {
    let n_centroids = 16u32;
    let max_n_subspaces = 16usize;
    let table: Vec<f32> = (0..(n_centroids as usize * max_n_subspaces))
        .map(|i| (i as f32 * 0.31).sin())
        .collect();
    for n_subspaces in [0usize, 1, 3, 4, 5, 8, 9, 16] {
        let row_base: Vec<u32> = (0..n_subspaces as u32).map(|s| s * n_centroids).collect();
        let codes: Vec<u8> = (0..n_subspaces).map(|i| (i * 3 % 16) as u8).collect();
        let got = num(f(&bits(&table), &row_base, &codes));
        let want = reference_lut_row_sum(&table, &row_base, &codes);
        assert!(
            (got - want).abs() < 1e-3,
            "n_subspaces={n_subspaces}: got {got}, want {want}"
        );
    }
}

#[test]
fn dot_matches_reference_for_various_lengths() {
    check_dot(|a, b| simd_dot_f32(&unit, a, b));
}

#[test]
fn lut_row_sum_matches_reference_for_various_lengths() {
    check_lut_row_sum(|t, r, c| simd_lut_row_sum_f32(&unit, t, r, c));
}

#[test]
fn scalar_dot_matches_reference_for_various_lengths() {
    check_dot(|a, b| scalar_dot_f32(&unit, a, b, a.len()));
}

#[test]
fn scalar_lut_row_sum_matches_reference_for_various_lengths() {
    check_lut_row_sum(|t, r, c| scalar_lut_row_sum_f32(&unit, t, r, c));
}

#[test]
fn dot_dispatch_matches_scalar_fallback() {
    for len in [0usize, 1, 4, 17, 130] {
        let a: Vec<f32> = (0..len).map(|i| (i as f32 * 0.11).sin()).collect();
        let b: Vec<f32> = (0..len).map(|i| (i as f32 * 0.53).cos()).collect();
        let dispatched = num(simd_dot_f32(&unit, &bits(&a), &bits(&b)));
        let scalar = num(scalar_dot_f32(&unit, &bits(&a), &bits(&b), len));
        assert!(
            (dispatched - scalar).abs() < 1e-3,
            "len={len}: dispatched={dispatched}, scalar={scalar}"
        );
    }
}

#[test]
fn lut_row_sum_dispatch_matches_scalar_fallback() {
    let n_centroids = 16u32;
    let table: Vec<f32> = (0..(n_centroids as usize * 9))
        .map(|i| (i as f32 * 0.17).cos())
        .collect();
    for n_subspaces in [0usize, 1, 4, 9] {
        let row_base: Vec<u32> = (0..n_subspaces as u32).map(|s| s * n_centroids).collect();
        let codes: Vec<u8> = (0..n_subspaces).map(|i| (i * 5 % 16) as u8).collect();
        let dispatched = num(simd_lut_row_sum_f32(&unit, &bits(&table), &row_base, &codes));
        let scalar = num(scalar_lut_row_sum_f32(&unit, &bits(&table), &row_base, &codes));
        assert!(
            (dispatched - scalar).abs() < 1e-3,
            "n_subspaces={n_subspaces}: dispatched={dispatched}, scalar={scalar}"
        );
    }
}

#[test]
fn dot_of_small_integers_is_exact() {
    let a = bits(&[1.0, 2.0, 3.0, 4.0, 5.0]);
    let b = bits(&[6.0, 7.0, 8.0, 9.0, 10.0]);
    assert_eq!(num(simd_dot_f32(&unit, &a, &b)), 130.0);
    assert_eq!(num(scalar_dot_f32(&unit, &a, &b, 2)), 20.0);
    assert_eq!(num(simd_dot_f32(&unit, &[], &[])), 0.0);
}

#[test]
fn row_sums_pick_the_entries_that_codes_name() {
    let t = bits(&[1.0, 2.0, 4.0, 8.0]);
    assert_eq!(num(simd_lut_row_sum_f32(&unit, &t, &[0, 2], &[1, 0])), 6.0);
}
