use latent_db::arith::Op;
use latent_db::embedded::steering::{steer_next, EdgeWeights};
use latent_db::embedded::storage::{cosine_similarity, dot_product, software_sqrt_f32, sqrt_f32, view_bytes_as_vector, ZeroAllocLatent, VECTOR_BYTES};
use latent_db::embedded::topology::{is_viable, Boundary, ViableNode};
use latent_db::embedded::{DIM, MAX_NEIGHBORS};
use latent_db::simd::simd_dot_f32;
use latent_db::superpose::cosine_sim;

/// The arithmetic of single-precision numbers, with one pattern for NaN.
fn unit(op: Op, a: u32, b: u32, c: u32) -> u32 {
    let (x, y, z) = (f32::from_bits(a), f32::from_bits(b), f32::from_bits(c));
    let r: f32 = match op {
        Op::Add => x + y,
        Op::Sub => x - y,
        Op::Mul => x * y,
        Op::Div => x / y,
        Op::Fma => x.mul_add(y, z),
        Op::Sqrt => x.sqrt(),
        Op::Ln => x.ln(),
        Op::Cos => x.cos(),
        Op::Acos => x.acos(),
        Op::Powf => x.powf(y),
        Op::Powi => x.powi(b as i32),
        Op::Count => (a as u64 + ((b as u64) << 32)) as f32,
    };
    if r.is_nan() {
        f32::NAN.to_bits()
    } else {
        r.to_bits()
    }
}

fn num(x: u32) -> f32 {
    f32::from_bits(x)
}

fn packed(v: &[f32; DIM]) -> [u32; DIM] {
    let mut r = [0u32; DIM];
    for i in 0..DIM {
        r[i] = v[i].to_bits();
    }
    r
}

fn sample_vector(seed: f32) -> [f32; DIM] {
    let mut v = [0.0f32; DIM];
    for (i, slot) in v.iter_mut().enumerate() {
        *slot = ((i as f32 + seed) * 0.037).sin();
    }
    v
}

fn bounds(min: f32, max: f32) -> Boundary {
    Boundary {
        min: min.to_bits(),
        max: max.to_bits(),
    }
}

fn reference_dot(a: &[f32; DIM], b: &[f32; DIM]) -> f32 {
    a.iter().zip(b.iter()).map(|(x, y)| x * y).sum()
}

#[test]
fn viable_node_is_repr_c_no_heap() {
    let expected = (4 + MAX_NEIGHBORS * 4 + 1).next_multiple_of(4);
    assert_eq!(core::mem::size_of::<ViableNode>(), expected);
}

#[test]
fn push_neighbor_updates_count_and_slot() {
    let mut node = ViableNode::new(7);
    assert_eq!(node.vector_idx, 7);
    assert_eq!(node.live_neighbors(), &[] as &[u32]);

    assert!(node.push_neighbor(11));
    assert!(node.push_neighbor(22));
    assert_eq!(node.neighbor_count, 2);
    assert_eq!(node.live_neighbors(), &[11, 22]);
}

#[test]
fn push_neighbor_stops_at_max_neighbors_no_reads_of_unset_slots() {
    let mut node = ViableNode::new(0);
    for i in 0..MAX_NEIGHBORS as u32 {
        assert!(node.push_neighbor(i));
    }
    assert_eq!(node.neighbor_count as usize, MAX_NEIGHBORS);
    // One more is a no-op: the count does not pass the end of the array.
    assert!(!node.push_neighbor(999));
    assert_eq!(node.neighbor_count as usize, MAX_NEIGHBORS);

    let expected: Vec<u32> = (0..MAX_NEIGHBORS as u32).collect();
    assert_eq!(node.live_neighbors(), expected.as_slice());
}

#[test]
fn a_node_that_claims_too_many_neighbours_takes_no_more() {
    let mut node = ViableNode::new(3);
    node.neighbor_count = 200;
    let before = node;
    assert!(!node.push_neighbor(1));
    assert_eq!(node, before);
}

#[test]
fn live_neighbors_never_reads_past_neighbor_count() {
    let mut node = ViableNode::new(0);
    node.push_neighbor(42);
    node.neighbors[1] = 0xDEAD_BEEF;
    assert_eq!(node.live_neighbors(), &[42]);
}

#[test]
fn in_bounds_vector_is_viable() {
    let v = sample_vector(0.0);
    assert!(is_viable(&packed(&v), &bounds(-1.0, 1.0)));
}

#[test]
fn single_dimension_out_of_bounds_is_not_viable() {
    let mut v = sample_vector(0.0);
    let boundary = bounds(-1.0, 1.0);
    assert!(is_viable(&packed(&v), &boundary));
    v[400] = 1.5;
    assert!(!is_viable(&packed(&v), &boundary));
}

#[test]
fn every_dimension_out_of_bounds_is_not_viable() {
    let v = [5.0f32; DIM];
    assert!(!is_viable(&packed(&v), &bounds(-1.0, 1.0)));
}

#[test]
fn boundary_exact_coordinates_are_viable() {
    let mut v = [0.0f32; DIM];
    v[0] = -2.0;
    v[1] = 2.0;
    let boundary = bounds(-2.0, 2.0);
    assert!(is_viable(&packed(&v), &boundary));

    v[1] = 2.0 + f32::EPSILON.max(1e-6);
    assert!(!is_viable(&packed(&v), &boundary));
}

#[test]
fn a_coordinate_that_is_no_number_is_not_viable() {
    let mut v = [0.0f32; DIM];
    v[5] = f32::NAN;
    assert!(!is_viable(&packed(&v), &bounds(-2.0, 2.0)));
}

#[test]
fn steer_next_moves_state_toward_target_when_viable() {
    let original = [0.0f32; DIM];
    let mut state = packed(&original);
    let direction = sample_vector(1.0);
    let boundary = bounds(-10.0, 10.0);

    let committed = steer_next(
        &unit,
        &mut state,
        &packed(&direction),
        0.5f32.to_bits(),
        &boundary,
    );

    assert!(committed);
    for (i, ((&s, &o), &d)) in state
        .iter()
        .zip(original.iter())
        .zip(direction.iter())
        .enumerate()
    {
        let s = num(s);
        let want = o + 0.5 * d;
        assert!((s - want).abs() < 1e-6, "dim {i}: got {s}, want {want}");
    }
}

#[test]
fn steer_next_rejects_a_step_that_leaves_the_safe_region() {
    let boundary = bounds(-0.01, 0.01);
    let mut state = packed(&[0.0f32; DIM]);
    let direction = packed(&sample_vector(2.0));

    let committed = steer_next(&unit, &mut state, &direction, 1.0f32.to_bits(), &boundary);

    assert!(!committed);
    for (i, &s) in state.iter().enumerate() {
        let s = num(s);
        assert!(s.abs() < 1e-5, "dim {i}: expected revert to ~0.0, got {s}");
    }
}

#[test]
fn steer_next_rejected_step_keeps_state_viable_for_a_later_call() {
    let boundary = bounds(-1.0, 1.0);
    let mut state = packed(&[1.0f32; DIM]);
    let direction = packed(&[1.0f32; DIM]);

    assert!(!steer_next(
        &unit,
        &mut state,
        &direction,
        0.1f32.to_bits(),
        &boundary
    ));
    assert!(is_viable(&state, &boundary));
}

#[test]
fn a_rejected_step_leaves_every_coordinate_as_it_was() {
    let boundary = bounds(-1.0, 1.0);
    let mut v = [0.1f32; DIM];
    v[DIM - 1] = 1.0;
    let mut state = packed(&v);
    let direction = packed(&[1.0e7f32; DIM]);
    assert!(!steer_next(
        &unit,
        &mut state,
        &direction,
        1.0f32.to_bits(),
        &boundary
    ));
    assert_eq!(state, packed(&v));
}

#[test]
fn edge_weights_start_at_zero() {
    let weights = EdgeWeights::zeroed();
    for i in 0..MAX_NEIGHBORS {
        assert_eq!(num(weights.get(i)), 0.0);
    }
}

#[test]
fn edge_weights_update_reports_before_and_after() {
    let mut weights = EdgeWeights::zeroed();

    assert_eq!(num(weights.get(3)), 0.0);
    let after_first = num(weights.update(&unit, 3, 0.5f32.to_bits()));
    assert_eq!(after_first, 0.5);
    assert_eq!(num(weights.get(3)), 0.5);

    let after_second = num(weights.update(&unit, 3, (-0.2f32).to_bits()));
    assert!((after_second - 0.3).abs() < 1e-6);
    assert!((num(weights.get(3)) - 0.3).abs() < 1e-6);

    assert_eq!(num(weights.get(0)), 0.0);
}

#[test]
fn dot_product_matches_reference() {
    let a = sample_vector(0.0);
    let b = sample_vector(1.0);
    let got = num(dot_product(&unit, &packed(&a), &packed(&b)));
    let want = reference_dot(&a, &b);
    assert!((got - want).abs() < 1e-3, "got {got}, want {want}");
}

#[test]
fn dot_product_matches_latent_db_simd_dot() {
    let a = packed(&sample_vector(0.0));
    let b = packed(&sample_vector(1.0));
    let got = num(dot_product(&unit, &a, &b));
    let want = num(simd_dot_f32(&unit, &a, &b));
    assert!((got - want).abs() < 1e-3, "got {got}, want {want}");
}

#[test]
fn dot_product_self_is_nonnegative() {
    for seed in [0.0, 1.0, -3.5, 42.0] {
        let v = packed(&sample_vector(seed));
        assert!(num(dot_product(&unit, &v, &v)) >= 0.0);
    }
}

#[test]
fn dot_product_of_ones_counts_the_coordinates() {
    let ones = packed(&[1.0f32; DIM]);
    let twos = packed(&[2.0f32; DIM]);
    assert_eq!(num(dot_product(&unit, &ones, &twos)), 1536.0);
}

#[test]
fn cosine_similarity_matches_latent_db_cosine_sim() {
    let a = packed(&sample_vector(0.0));
    let b = packed(&sample_vector(1.0));
    let got = num(cosine_similarity(&unit, &a, &b));
    let want = num(cosine_sim(&unit, &a, &b));
    assert!((got - want).abs() < 1e-3, "got {got}, want {want}");
}

#[test]
fn cosine_similarity_self_is_one() {
    let a = packed(&sample_vector(0.0));
    let got = num(cosine_similarity(&unit, &a, &a));
    assert!((got - 1.0).abs() < 1e-3, "got {got}");
}

#[test]
fn cosine_similarity_zero_vector_is_zero() {
    let zero = packed(&[0.0f32; DIM]);
    let a = packed(&sample_vector(0.0));
    assert_eq!(num(cosine_similarity(&unit, &zero, &a)), 0.0);
    assert_eq!(num(cosine_similarity(&unit, &zero, &zero)), 0.0);
}

#[test]
fn software_sqrt_matches_std_sqrt() {
    for x in [0.25f32, 1.0, 2.0, 9.0, 100.0, 0.001, 123456.0] {
        let got = num(software_sqrt_f32(&unit, x.to_bits()));
        let want = x.sqrt();
        let rel_err = (got - want).abs() / want;
        assert!(
            rel_err < 1e-4,
            "x={x}: got {got}, want {want}, rel_err={rel_err}"
        );
    }
}

#[test]
fn software_sqrt_zero_guard() {
    assert_eq!(num(software_sqrt_f32(&unit, 0.0f32.to_bits())), 0.0);
    assert_eq!(num(software_sqrt_f32(&unit, (-1.0f32).to_bits())), 0.0);
}

#[test]
fn sqrt_dispatch_matches_std_sqrt() {
    for x in [0.25f32, 1.0, 2.0, 9.0, 100.0, 0.001, 123456.0] {
        let got = num(sqrt_f32(&unit, x.to_bits()));
        let want = x.sqrt();
        assert!((got - want).abs() < 1e-3, "x={x}: got {got}, want {want}");
    }
}

#[test]
fn zero_alloc_latent_stores_fields() {
    let data = packed(&sample_vector(2.0));
    let latent = ZeroAllocLatent::new(data, 42);
    assert_eq!(latent.data, data);
    assert_eq!(latent.id, 42);
}

#[test]
fn zero_alloc_latent_is_repr_c_no_heap() {
    assert_eq!(core::mem::size_of::<ZeroAllocLatent>(), VECTOR_BYTES + 8);
}

/// Bytes that start at the aligned address 4096, and four more.
fn aligned_buf() -> Vec<u8> {
    (0..VECTOR_BYTES + 4).map(|i| (i % 256) as u8).collect()
}

#[test]
fn view_bytes_as_vector_accepts_aligned_correctly_sized_input() {
    let buf = aligned_buf();
    let view = view_bytes_as_vector(&buf[..VECTOR_BYTES], 4096);
    assert!(view.is_some());
}

#[test]
fn view_bytes_as_vector_rejects_wrong_length() {
    let buf = aligned_buf();
    assert!(view_bytes_as_vector(&buf[..VECTOR_BYTES - 4], 4096).is_none());
    assert!(view_bytes_as_vector(&buf[..], 4096).is_none());
}

#[test]
fn view_bytes_as_vector_rejects_misaligned_input() {
    let buf = aligned_buf();
    let misaligned = &buf[1..1 + VECTOR_BYTES];
    assert!(view_bytes_as_vector(misaligned, 4097).is_none());
}

#[test]
fn vectors_come_back_from_their_bytes() {
    let v = sample_vector(3.0);
    let mut buf = Vec::new();
    for x in v.iter() {
        buf.extend_from_slice(&x.to_le_bytes());
    }
    assert_eq!(view_bytes_as_vector(&buf, 4096), Some(packed(&v)));
}
