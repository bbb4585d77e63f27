use latent_db::arith::Op;
use latent_db::clustering::kmeans;
use latent_db::pq::PqCodec;
use latent_db::superpose::cosine_sim;
use latent_db::vectors::sq_dist;
use rand::rngs::StdRng;
use rand::{Rng, SeedableRng};

/// The arithmetic of single-precision numbers, with one pattern for NaN.
fn unit(op: Op, a: u32, b: u32, c: u32) -> u32 {
    let (x, y, z) = (f32::from_bits(a), f32::from_bits(b), f32::from_bits(c));
    let r: f32 = match op {
        Op::Add => x + y,
        Op::Sub => x - y,
        Op::Mul => x * y,
        Op::Div => x / y,
        Op::Fma => x.mul_add(y, z),
        Op::Sqrt => x.sqrt(),
        Op::Ln => x.ln(),
        Op::Cos => x.cos(),
        Op::Acos => x.acos(),
        Op::Powf => x.powf(y),
        Op::Powi => x.powi(b as i32),
        Op::Count => (a as u64 + ((b as u64) << 32)) as f32,
    };
    if r.is_nan() {
        f32::NAN.to_bits()
    } else {
        r.to_bits()
    }
}

fn bits(v: &[f32]) -> Vec<u32> {
    v.iter().map(|x| x.to_bits()).collect()
}

fn floats(v: &[u32]) -> Vec<f32> {
    v.iter().map(|x| f32::from_bits(*x)).collect()
}

fn num(x: u32) -> f32 {
    f32::from_bits(x)
}

fn table(v: &[Vec<f32>]) -> Vec<Vec<u32>> {
    v.iter().map(|row| bits(row)).collect()
}

#[test]
fn encode_decode_roundtrip_is_approximate() {
    let training: Vec<Vec<f32>> = (0..200)
        .map(|i| {
            let x = i as f32;
            vec![x.sin(), x.cos(), (x * 0.5).sin(), (x * 0.3).cos()]
        })
        .collect();
    let training = table(&training);
    let codec = PqCodec::train(&unit, &training, 2, 16, 10, 1);
    let v = training[5].clone();
    let codes = codec.encode(&unit, &v);
    assert_eq!(codes.len(), codec.code_len());
    let decoded = codec.decode(&codes);
    assert_eq!(decoded.len(), v.len());
    let err: f32 = num(sq_dist(&unit, &v, &decoded));
    assert!(err < 1.0, "reconstruction error too high: {err}");
}

#[test]
fn compression_ratio_is_meaningful() {
    let training: Vec<Vec<f32>> = (0..50).map(|i| vec![i as f32; 32]).collect();
    let codec = PqCodec::train(&unit, &table(&training), 4, 16, 5, 2);
    assert!(codec.compressed_bytes() < codec.raw_bytes());
}

#[test]
fn query_lut_cosine_score_matches_decode_baseline() {
    let mut rng = StdRng::seed_from_u64(100);
    let training: Vec<Vec<f32>> = (0..300)
        .map(|_| (0..32).map(|_| rng.gen_range(-1.0..1.0)).collect())
        .collect();
    let training = table(&training);
    let codec = PqCodec::train(&unit, &training, 4, 16, 15, 101);

    let all_codes: Vec<Vec<u8>> = training.iter().map(|v| codec.encode(&unit, v)).collect();

    for q_idx in [0usize, 7, 42, 199] {
        let query = &training[q_idx];
        let lut = codec.build_query_lut(&unit, query);
        for codes in &all_codes {
            let decoded = codec.decode(codes);
            let want = num(cosine_sim(&unit, query, &decoded));
            let got = num(lut.cosine_score(&unit, codes));
            assert!(
                (got - want).abs() < 1e-4,
                "q_idx={q_idx}: lut score {got} != decode baseline {want}"
            );
        }
    }
}

#[test]
fn encode_into_matches_encode() {
    let training: Vec<Vec<f32>> = (0..100)
        .map(|i| {
            vec![
                (i as f32).sin(),
                (i as f32).cos(),
                i as f32 * 0.1,
                -(i as f32),
            ]
        })
        .collect();
    let training = table(&training);
    let codec = PqCodec::train(&unit, &training, 2, 8, 10, 5);
    let v = &training[3];
    let expected = codec.encode(&unit, v);
    let mut out = vec![0u8; codec.code_len()];
    codec.encode_into(&unit, v, &mut out);
    assert_eq!(expected, out);
}

#[test]
fn centroids_of_two_far_groups_are_their_means() {
    let data = table(&[
        vec![0.0, 0.0],
        vec![0.0, 2.0],
        vec![100.0, 100.0],
        vec![100.0, 102.0],
    ]);
    for seed in 0..20 {
        let centers = kmeans(&unit, &data, 2, 10, seed);
        let mut rows: Vec<Vec<f32>> = centers.iter().map(|c| floats(c)).collect();
        rows.sort_by(|a, b| a[0].total_cmp(&b[0]));
        assert_eq!(rows, vec![vec![0.0, 1.0], vec![100.0, 101.0]]);
    }
}

#[test]
fn clustering_gives_no_more_centroids_than_points() {
    let data = table(&[vec![1.0], vec![2.0]]);
    assert_eq!(kmeans(&unit, &data, 5, 3, 7).len(), 2);
}

#[test]
fn clustering_is_deterministic_for_a_seed() {
    let data: Vec<Vec<f32>> = (0..40).map(|i| vec![(i as f32).sin(), i as f32]).collect();
    let data = table(&data);
    assert_eq!(kmeans(&unit, &data, 4, 8, 3), kmeans(&unit, &data, 4, 8, 3));
}

#[test]
fn codes_select_the_nearest_entries() {
    let training: Vec<Vec<f32>> = (0..60)
        .map(|i| vec![(i as f32).sin(), (i as f32).cos(), i as f32 * 0.1, -(i as f32)])
        .collect();
    let training = table(&training);
    let codec = PqCodec::train(&unit, &training, 2, 8, 10, 5);
    for v in &training {
        let codes = codec.encode(&unit, v);
        for s in 0..2 {
            let part = &v[2 * s..2 * s + 2];
            let book = &codec.codebooks[s];
            let chosen = num(sq_dist(&unit, part, &book[codes[s] as usize]));
            for entry in book {
                assert!(chosen <= num(sq_dist(&unit, part, entry)));
            }
        }
    }
}

#[test]
fn exact_codebooks_decode_exactly() {
    // With as many centroids as distinct values, each value is its own centroid.
    let training = table(&[vec![0.0, 10.0], vec![50.0, 70.0]]);
    for seed in 0..10 {
        let codec = PqCodec::train(&unit, &training, 2, 2, 10, seed);
        assert_eq!(codec.code_len(), 2);
        assert_eq!(codec.dim(), 2);
        assert_eq!(codec.raw_bytes(), 8);
        assert_eq!(codec.compressed_bytes(), 2);
        for v in &training {
            assert_eq!(codec.decode(&codec.encode(&unit, v)), *v);
        }
    }
}
