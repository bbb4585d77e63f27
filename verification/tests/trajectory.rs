use latent_db::arith::Op;
use latent_db::trajectory::{bifurcation_ratio, path_geometry, BifurcationResult, PathGeometry};
use latent_db::{build_viable_graph, ViableGraph};

/// The arithmetic of single-precision numbers, with one pattern for NaN.
fn unit(op: Op, a: u32, b: u32, c: u32) -> u32 {
    let (x, y, z) = (f32::from_bits(a), f32::from_bits(b), f32::from_bits(c));
    let r: f32 = match op {
        Op::Add => x + y,
        Op::Sub => x - y,
        Op::Mul => x * y,
        Op::Div => x / y,
        Op::Fma => x.mul_add(y, z),
        Op::Sqrt => x.sqrt(),
        Op::Ln => x.ln(),
        Op::Cos => x.cos(),
        Op::Acos => x.acos(),
        Op::Powf => x.powf(y),
        Op::Powi => x.powi(b as i32),
        Op::Count => (a as u64 + ((b as u64) << 32)) as f32,
    };
    if r.is_nan() {
        f32::NAN.to_bits()
    } else {
        r.to_bits()
    }
}

fn bits(v: &[f32]) -> Vec<u32> {
    v.iter().map(|x| x.to_bits()).collect()
}

fn num(x: u32) -> f32 {
    f32::from_bits(x)
}

fn graph_of(points: &[(u64, Vec<f32>)]) -> ViableGraph {
    let records: Vec<(u64, Vec<u32>)> = points.iter().map(|(id, v)| (*id, bits(v))).collect();
    build_viable_graph(&unit, &records, &|_: &[u32]| true, 4, false)
}

#[test]
fn short_path_is_default() {
    let g = graph_of(&[(0, vec![0.0, 0.0])]);
    assert_eq!(path_geometry(&unit, &g, &[]), PathGeometry::default());
    assert_eq!(path_geometry(&unit, &g, &[0]), PathGeometry::default());
}

#[test]
fn straight_collinear_path_has_low_curvature_and_matches_length() {
    let points = vec![
        (0u64, vec![1.0, 0.0]),
        (1u64, vec![2.0, 0.0]),
        (2u64, vec![3.0, 0.0]),
        (3u64, vec![4.0, 0.0]),
    ];
    let g = graph_of(&points);
    let geom = path_geometry(&unit, &g, &[0, 1, 2, 3]);
    assert!((num(geom.length) - 3.0).abs() < 1e-5);
    assert!(
        num(geom.mean_curvature).abs() < 1e-4,
        "straight path should have ~0 curvature, got {}",
        num(geom.mean_curvature)
    );
    assert!((num(geom.min_adjacent_cosine) - 1.0).abs() < 1e-5);
    assert_eq!(geom.n_steps, 3);
}

#[test]
fn zigzag_path_has_high_curvature() {
    let points = vec![
        (0u64, vec![1.0, 0.0]),
        (1u64, vec![0.0, 0.0]),
        (2u64, vec![1.0, 0.0]),
        (3u64, vec![0.0, 0.0]),
    ];
    let g = graph_of(&points);
    let geom = path_geometry(&unit, &g, &[0, 1, 2, 3]);
    assert!(
        (num(geom.mean_curvature) - std::f32::consts::PI).abs() < 1e-3,
        "zigzag path should have curvature near PI, got {}",
        num(geom.mean_curvature)
    );
}

#[test]
fn straight_path_curvature_is_far_below_zigzag() {
    let straight = graph_of(&[
        (0u64, vec![0.0, 0.0]),
        (1u64, vec![1.0, 0.0]),
        (2u64, vec![2.0, 0.0]),
    ]);
    let zigzag = graph_of(&[
        (0u64, vec![1.0, 0.0]),
        (1u64, vec![0.0, 0.0]),
        (2u64, vec![1.0, 0.0]),
    ]);
    let straight_geom = path_geometry(&unit, &straight, &[0, 1, 2]);
    let zigzag_geom = path_geometry(&unit, &zigzag, &[0, 1, 2]);
    assert!(num(zigzag_geom.mean_curvature) - num(straight_geom.mean_curvature) > 1.0);
}

#[test]
fn unknown_id_breaks_the_curvature_chain_without_panicking() {
    let points = vec![
        (0u64, vec![0.0, 0.0]),
        (1u64, vec![1.0, 0.0]),
        (2u64, vec![2.0, 0.0]),
    ];
    let g = graph_of(&points);
    let geom = path_geometry(&unit, &g, &[0, 999, 2]);
    assert_eq!(num(geom.length), 0.0);
    assert_eq!(geom.n_steps, 0);
    assert_eq!(num(geom.mean_curvature), 0.0);
}

#[test]
fn identical_paths_report_zero_bifurcation() {
    let points = vec![
        (0u64, vec![0.0, 0.0]),
        (1u64, vec![1.0, 0.0]),
        (2u64, vec![2.0, 0.0]),
    ];
    let g = graph_of(&points);
    let path = [0u64, 1, 2];
    let r = bifurcation_ratio(&unit, &g, &path, &path);
    assert_eq!(num(r.final_separation), 0.0);
    assert_eq!(num(r.separation_ratio), 1.0);
    assert_eq!(r.onset_step, None);
}

#[test]
fn immediately_diverging_paths_report_high_separation() {
    let points = vec![
        (0u64, vec![0.0, 0.1]),
        (1u64, vec![1.0, 0.1]),
        (2u64, vec![2.0, 0.1]),
        (10u64, vec![0.0, -0.1]),
        (11u64, vec![1.0, 1.0]),
        (12u64, vec![2.0, 2.0]),
    ];
    let g = graph_of(&points);
    let a = [0u64, 1, 2];
    let b = [10u64, 11, 12];
    let r = bifurcation_ratio(&unit, &g, &a, &b);
    assert!(
        num(r.separation_ratio) > 5.0,
        "expected strong divergence, got ratio {}",
        num(r.separation_ratio)
    );
    assert_eq!(r.onset_step, Some(1));
    assert!(num(r.final_separation) > 1.5);
}

#[test]
fn parallel_paths_never_bifurcate() {
    let points = vec![
        (0u64, vec![0.0, 0.0]),
        (1u64, vec![1.0, 0.0]),
        (2u64, vec![2.0, 0.0]),
        (10u64, vec![0.0, 1.0]),
        (11u64, vec![1.0, 1.0]),
        (12u64, vec![2.0, 1.0]),
    ];
    let g = graph_of(&points);
    let r = bifurcation_ratio(&unit, &g, &[0, 1, 2], &[10, 11, 12]);
    assert!((num(r.separation_ratio) - 1.0).abs() < 1e-5);
    assert_eq!(r.onset_step, None);
}

#[test]
fn length_mismatch_and_unknown_ids_are_defensive() {
    let g = graph_of(&[(0u64, vec![0.0, 0.0]), (1u64, vec![1.0, 0.0])]);
    let mismatched = bifurcation_ratio(&unit, &g, &[0, 1], &[0]);
    assert_eq!(mismatched, BifurcationResult::default());

    let unknown = bifurcation_ratio(&unit, &g, &[0, 999], &[0, 1]);
    assert_eq!(unknown, BifurcationResult::default());
}

#[test]
fn paths_that_part_from_one_point_have_an_infinite_ratio() {
    let g = graph_of(&[
        (0u64, vec![0.0, 0.0]),
        (1u64, vec![1.0, 0.0]),
        (2u64, vec![0.0, 3.0]),
    ]);
    let r = bifurcation_ratio(&unit, &g, &[0, 1], &[0, 2]);
    assert_eq!(num(r.separation_ratio), f32::INFINITY);
    assert_eq!(r.onset_step, None);
    assert_eq!(num(r.final_separation), 10.0f32.sqrt());
}

#[test]
fn a_right_angle_turns_by_half_pi() {
    let g = graph_of(&[
        (0u64, vec![1.0, 1.0]),
        (1u64, vec![2.0, 1.0]),
        (2u64, vec![2.0, 2.0]),
    ]);
    let geom = path_geometry(&unit, &g, &[0, 1, 2]);
    assert_eq!(num(geom.length), 2.0);
    assert_eq!(geom.n_steps, 2);
    assert!((num(geom.mean_curvature) - std::f32::consts::FRAC_PI_2).abs() < 1e-6);
}
