use latent_db::arith::Op;
use latent_db::superpose::{circular_convolve, circular_correlate, cosine_sim, SuperposedSlot};
use latent_db::superpose;
use rand::rngs::StdRng;
use rand::{Rng, SeedableRng};

/// The arithmetic of single-precision numbers, with one pattern for NaN.
fn unit(op: Op, a: u32, b: u32, c: u32) -> u32 {
    let (x, y, z) = (f32::from_bits(a), f32::from_bits(b), f32::from_bits(c));
    let r: f32 = match op {
        Op::Add => x + y,
        Op::Sub => x - y,
        Op::Mul => x * y,
        Op::Div => x / y,
        Op::Fma => x.mul_add(y, z),
        Op::Sqrt => x.sqrt(),
        Op::Ln => x.ln(),
        Op::Cos => x.cos(),
        Op::Acos => x.acos(),
        Op::Powf => x.powf(y),
        Op::Powi => x.powi(b as i32),
        Op::Count => (a as u64 + ((b as u64) << 32)) as f32,
    };
    if r.is_nan() {
        f32::NAN.to_bits()
    } else {
        r.to_bits()
    }
}

fn bits(v: &[f32]) -> Vec<u32> {
    v.iter().map(|x| x.to_bits()).collect()
}

fn floats(v: &[u32]) -> Vec<f32> {
    v.iter().map(|x| f32::from_bits(*x)).collect()
}

fn num(x: u32) -> f32 {
    f32::from_bits(x)
}

#[test]
fn single_pair_recovers_almost_exactly() {
    let key = bits(&[1.0, 0.0, 0.0, 0.0, 0.0, 0.0, 0.0, 0.0]);
    let value = bits(&[0.1, 0.5, -0.3, 0.2, 0.0, 0.4, -0.1, 0.6]);
    let mut slot = SuperposedSlot::new(8);
    slot.insert(&unit, &key, &value);
    assert_eq!(slot.count, 1);
    let recovered = slot.expand(&unit, &key);
    let sim = num(cosine_sim(&unit, &recovered, &value));
    assert!(sim > 0.99, "expected near-perfect recovery, got sim={sim}");
}

#[test]
fn accuracy_degrades_as_more_pairs_are_bundled() {
    let mut rng = StdRng::seed_from_u64(0);
    let dim = 64;

    let rand_vec = |rng: &mut StdRng| -> Vec<u32> {
        let v: Vec<f32> = (0..dim).map(|_| rng.gen_range(-1.0..1.0)).collect();
        bits(&v)
    };

    let target_key = rand_vec(&mut rng);
    let target_value = rand_vec(&mut rng);

    let mut sims = Vec::new();
    for n_extra in [0usize, 4, 16, 64] {
        let mut slot = SuperposedSlot::new(dim);
        slot.insert(&unit, &target_key, &target_value);
        for _ in 0..n_extra {
            slot.insert(&unit, &rand_vec(&mut rng), &rand_vec(&mut rng));
        }
        let recovered = slot.expand(&unit, &target_key);
        sims.push(num(cosine_sim(&unit, &recovered, &target_value)));
    }
    for w in sims.windows(2) {
        assert!(
            w[0] + 1e-3 >= w[1],
            "similarity should not increase with more clutter: {:?}",
            sims
        );
    }
}

#[test]
fn convolution_and_correlation_are_circular() {
    let a = bits(&[1.0, 2.0, 3.0]);
    let b = bits(&[4.0, 5.0, 6.0]);
    assert_eq!(floats(&circular_convolve(&unit, &a, &b)), vec![31.0, 31.0, 28.0]);
    assert_eq!(floats(&circular_correlate(&unit, &a, &b)), vec![32.0, 29.0, 29.0]);
}

#[test]
fn similarity_of_a_zero_vector_is_zero() {
    let a = bits(&[1.0, 2.0]);
    let zero = bits(&[0.0, 0.0]);
    assert_eq!(num(cosine_sim(&unit, &a, &zero)), 0.0);
    assert_eq!(num(cosine_sim(&unit, &bits(&[3.0, 4.0]), &bits(&[3.0, 4.0]))), 1.0);
    assert_eq!(num(cosine_sim(&unit, &bits(&[1.0, 0.0]), &bits(&[0.0, 1.0]))), 0.0);
}

#[test]
fn unit_vectors_have_length_one() {
    assert_eq!(floats(&superpose::unit(&unit, bits(&[3.0, 4.0]))), vec![0.6, 0.8]);
}
