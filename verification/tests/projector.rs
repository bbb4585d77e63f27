use latent_db::arith::Op;
use latent_db::projector::{to_normal, Projector};
use rand::rngs::StdRng;
use rand::{Rng, SeedableRng};
use std::cell::RefCell;
use std::collections::HashMap;

/// The arithmetic of single-precision numbers, with one pattern for NaN.
fn unit(op: Op, a: u32, b: u32, c: u32) -> u32 {
    let (x, y, z) = (f32::from_bits(a), f32::from_bits(b), f32::from_bits(c));
    let r: f32 = match op {
        Op::Add => x + y,
        Op::Sub => x - y,
        Op::Mul => x * y,
        Op::Div => x / y,
        Op::Fma => x.mul_add(y, z),
        Op::Sqrt => x.sqrt(),
        Op::Ln => x.ln(),
        Op::Cos => x.cos(),
        Op::Acos => x.acos(),
        Op::Powf => x.powf(y),
        Op::Powi => x.powi(b as i32),
        Op::Count => (a as u64 + ((b as u64) << 32)) as f32,
    };
    if r.is_nan() {
        f32::NAN.to_bits()
    } else {
        r.to_bits()
    }
}

fn bits(v: &[f32]) -> Vec<u32> {
    v.iter().map(|x| x.to_bits()).collect()
}

fn num(x: u32) -> f32 {
    f32::from_bits(x)
}

/// Draw number `i` after a seed, as a generator gives them one by one.
fn source(next: fn(&mut StdRng, u64) -> f32) -> impl Fn(u64, u64) -> u32 {
    let drawn: RefCell<HashMap<u64, (StdRng, Vec<u32>)>> = RefCell::new(HashMap::new());
    move |seed, i| {
        let mut drawn = drawn.borrow_mut();
        let entry = drawn
            .entry(seed)
            .or_insert_with(|| (StdRng::seed_from_u64(seed), Vec::new()));
        while entry.1.len() as u64 <= i {
            let n = entry.1.len() as u64;
            let x = next(&mut entry.0, n);
            entry.1.push(x.to_bits());
        }
        entry.1[i as usize]
    }
}

/// Draws for the entries of a projection.
fn entries() -> impl Fn(u64, u64) -> u32 {
    source(|rng, n| {
        if n % 2 == 0 {
            rng.gen_range(1e-9..1.0)
        } else {
            rng.gen_range(0.0..1.0)
        }
    })
}

#[test]
fn projection_is_deterministic() {
    let p1 = Projector::new(&unit, &entries(), 64, 8, 42);
    let p2 = Projector::new(&unit, &entries(), 64, 8, 42);
    let v: Vec<f32> = (0..64).map(|i| i as f32 * 0.01).collect();
    assert_eq!(p1.project(&unit, &bits(&v)), p2.project(&unit, &bits(&v)));
}

#[test]
fn projection_reduces_dimension() {
    let p = Projector::new(&unit, &entries(), 64, 8, 7);
    let v: Vec<f32> = vec![1.0; 64];
    assert_eq!(p.project(&unit, &bits(&v)).len(), 8);
}

#[test]
fn commitment_verifies_untampered_matrix() {
    let p = Projector::new(&unit, &entries(), 64, 8, 42);
    assert!(p.verify());
}

#[test]
fn commitment_detects_tampering() {
    let mut p = Projector::new(&unit, &entries(), 64, 8, 42);
    p.matrix[0] = (num(p.matrix[0]) + 1.0).to_bits();
    assert!(!p.verify());
}

#[test]
fn commitment_survives_serde_roundtrip() {
    let p = Projector::new(&unit, &entries(), 64, 8, 42);
    let parts = (p.in_dim, p.out_dim, p.matrix, p.commitment);
    let bytes = bincode::serialize(&parts).unwrap();
    let (in_dim, out_dim, matrix, commitment): (usize, usize, Vec<u32>, [u8; 32]) =
        bincode::deserialize(&bytes).unwrap();
    let reloaded = Projector {
        in_dim,
        out_dim,
        matrix,
        commitment,
    };
    assert!(reloaded.verify());
}

#[test]
fn project_into_matches_project() {
    let p = Projector::new(&unit, &entries(), 64, 8, 42);
    let v: Vec<f32> = (0..64).map(|i| i as f32 * 0.01).collect();
    let expected = p.project(&unit, &bits(&v));
    let mut out = vec![0u32; 8];
    p.project_into(&unit, &bits(&v), &mut out);
    assert_eq!(expected, out);
}

#[test]
fn entries_are_normal_numbers_over_the_root_of_the_dimension() {
    let p = Projector::new(&unit, &entries(), 4, 2, 42);
    let mut rng = StdRng::seed_from_u64(42);
    let scale = 1.0f32 / (2.0f32).sqrt();
    for entry in &p.matrix {
        let u1: f32 = rng.gen_range(1e-9..1.0);
        let u2: f32 = rng.gen_range(0.0..1.0);
        let z = (-2.0 * u1.ln()).sqrt() * (2.0 * std::f32::consts::PI * u2).cos();
        assert!((num(*entry) - z * scale).abs() < 1e-5);
    }
    assert_eq!(p.in_dim(), 4);
    assert_eq!(p.out_dim(), 2);
}

#[test]
fn the_normal_number_of_one_is_zero() {
    assert_eq!(num(to_normal(&unit, 1.0f32.to_bits(), 0.25f32.to_bits())).abs(), 0.0);
    let z = num(to_normal(&unit, (-0.5f32).exp().to_bits(), 0.0f32.to_bits()));
    assert!((z - 1.0).abs() < 1e-6);
}

#[test]
fn committing_again_covers_the_change() {
    let mut p = Projector::new(&unit, &entries(), 4, 2, 42);
    p.matrix[3] = 1.0f32.to_bits();
    assert!(!p.verify());
    p.commit();
    assert!(p.verify());
}

#[test]
fn projections_multiply_rows() {
    let mut p = Projector::new(&unit, &entries(), 2, 2, 1);
    p.matrix = bits(&[1.0, 2.0, 3.0, 4.0]);
    assert_eq!(p.project(&unit, &bits(&[5.0, 6.0])), bits(&[17.0, 39.0]));
}
