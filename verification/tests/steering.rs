use latent_db::arith::Op;
use latent_db::steering::{SteeringEnvelope, SteeringError, SteeringVector};

/// The arithmetic of single-precision numbers, with one pattern for NaN.
fn unit(op: Op, a: u32, b: u32, c: u32) -> u32 {
    let (x, y, z) = (f32::from_bits(a), f32::from_bits(b), f32::from_bits(c));
    let r: f32 = match op {
        Op::Add => x + y,
        Op::Sub => x - y,
        Op::Mul => x * y,
        Op::Div => x / y,
        Op::Fma => x.mul_add(y, z),
        Op::Sqrt => x.sqrt(),
        Op::Ln => x.ln(),
        Op::Cos => x.cos(),
        Op::Acos => x.acos(),
        Op::Powf => x.powf(y),
        Op::Powi => x.powi(b as i32),
        Op::Count => (a as u64 + ((b as u64) << 32)) as f32,
    };
    if r.is_nan() {
        f32::NAN.to_bits()
    } else {
        r.to_bits()
    }
}

fn bits(v: &[f32]) -> Vec<u32> {
    v.iter().map(|x| x.to_bits()).collect()
}

fn num(x: u32) -> f32 {
    f32::from_bits(x)
}

fn l2_norm(v: &[f32]) -> f32 {
    v.iter().map(|x| x * x).sum::<f32>().sqrt()
}

fn unit_direction(d: usize, seed: u64) -> Vec<f32> {
    let mut state = seed;
    let mut v: Vec<f32> = (0..d)
        .map(|_| {
            state = state
                .wrapping_mul(6364136223846793005)
                .wrapping_add(1442695040888963407);
            ((state >> 33) as f32) / (1u64 << 31) as f32 - 1.0
        })
        .collect();
    let norm = l2_norm(&v);
    for x in &mut v {
        *x /= norm.max(1e-12);
    }
    v
}

fn steering_vector(dir: &[f32], alpha: f32) -> Result<SteeringVector, SteeringError> {
    SteeringVector::new(&unit, bits(dir), alpha.to_bits(), 1e-4f32.to_bits())
}

#[test]
fn new_rejects_non_unit_norm() {
    let dir = vec![1.0, 1.0, 0.0];
    let err = steering_vector(&dir, 0.5).unwrap_err();
    assert_eq!(err, SteeringError::NotUnitNorm);
}

#[test]
fn new_rejects_alpha_out_of_range() {
    let dir = unit_direction(4, 1);
    let err = steering_vector(&dir, 1.5).unwrap_err();
    assert_eq!(err, SteeringError::AlphaOutOfRange);
}

#[test]
fn new_accepts_a_valid_unit_vector() {
    let dir = unit_direction(8, 2);
    let v = steering_vector(&dir, 0.5).unwrap();
    assert!(v.verify(&unit, 1e-4f32.to_bits()));
}

#[test]
fn apply_shifts_state_by_alpha_times_direction() {
    let dir = unit_direction(4, 3);
    let v = steering_vector(&dir, 0.5).unwrap();
    let mut state = bits(&[1.0, 2.0, 3.0, 4.0]);
    let original = state.clone();
    v.apply(&unit, &mut state);
    for i in 0..4 {
        assert!((num(state[i]) - (num(original[i]) + 0.5 * dir[i])).abs() < 1e-6);
    }
}

#[test]
fn apply_weighted_scales_alpha_by_w() {
    let dir = unit_direction(4, 4);
    let v = steering_vector(&dir, 0.5).unwrap();
    let mut state = bits(&[0.0; 4]);
    v.apply_weighted(&unit, &mut state, 0.5f32.to_bits());
    for i in 0..4 {
        assert!((num(state[i]) - (0.5 * 0.5 * dir[i])).abs() < 1e-6);
    }
}

#[test]
fn apply_weighted_with_nonpositive_w_is_a_noop() {
    let dir = unit_direction(4, 5);
    let v = steering_vector(&dir, 0.5).unwrap();
    let mut state = bits(&[9.0; 4]);
    let original = state.clone();
    v.apply_weighted(&unit, &mut state, 0.0f32.to_bits());
    assert_eq!(state, original);
    v.apply_weighted(&unit, &mut state, (-1.0f32).to_bits());
    assert_eq!(state, original);
}

#[test]
fn verify_detects_direct_tampering() {
    let dir = unit_direction(4, 7);
    let mut v = steering_vector(&dir, 0.5).unwrap();
    v.direction[0] = (num(v.direction[0]) + 1.0).to_bits();
    assert!(!v.verify(&unit, 1e-4f32.to_bits()));
}

#[test]
fn envelope_freeze_thaw_roundtrips() {
    let dir = unit_direction(8, 8);
    let v = steering_vector(&dir, 0.7).unwrap();
    let envelope = SteeringEnvelope::freeze(&v);
    assert!(envelope.verify());
    let thawed = envelope.thaw().expect("valid envelope thaws");
    assert_eq!(thawed.as_slice(), v.as_slice());
    assert_eq!(thawed.alpha(), v.alpha());
}

#[test]
fn envelope_thaw_rejects_a_tampered_payload() {
    let dir = unit_direction(8, 9);
    let v = steering_vector(&dir, 0.7).unwrap();
    let mut envelope = SteeringEnvelope::freeze(&v);
    envelope.payload[10] ^= 0xFF;
    assert!(!envelope.verify());
    assert!(envelope.thaw().is_none());
}

#[test]
fn envelope_thaw_rejects_a_truncated_payload() {
    let dir = unit_direction(8, 10);
    let v = steering_vector(&dir, 0.7).unwrap();
    let mut envelope = SteeringEnvelope::freeze(&v);
    let shorter = envelope.payload.len() - 4;
    envelope.payload.truncate(shorter);
    assert!(!envelope.verify());
}

#[test]
fn envelope_payload_is_stable_and_reloadable() {
    let dir = unit_direction(8, 11);
    let v = steering_vector(&dir, 0.3).unwrap();
    let envelope = SteeringEnvelope::freeze(&v);
    let bytes = envelope.payload().to_vec();
    let commitment = envelope.commitment();
    let reloaded = SteeringEnvelope {
        commitment,
        payload: bytes,
    };
    let thawed = reloaded.thaw().expect("reloaded envelope thaws");
    assert_eq!(thawed.as_slice(), v.as_slice());
}

#[test]
fn payloads_hold_length_direction_and_strength() {
    let v = SteeringVector::new_unchecked(bits(&[1.0, -2.0]), 0.5f32.to_bits());
    let mut want = vec![2u8, 0, 0, 0];
    want.extend_from_slice(&1.0f32.to_le_bytes());
    want.extend_from_slice(&(-2.0f32).to_le_bytes());
    want.extend_from_slice(&0.5f32.to_le_bytes());
    let envelope = SteeringEnvelope::freeze(&v);
    assert_eq!(envelope.payload(), want.as_slice());
    assert_eq!(envelope.commitment(), *blake3::hash(&want).as_bytes());
}

#[test]
fn commitments_cover_direction_and_strength() {
    let v = SteeringVector::new_unchecked(bits(&[1.0, 0.0]), 0.5f32.to_bits());
    let mut input = Vec::new();
    input.extend_from_slice(&1.0f32.to_le_bytes());
    input.extend_from_slice(&0.0f32.to_le_bytes());
    input.extend_from_slice(&0.5f32.to_le_bytes());
    assert_eq!(v.commitment(), *blake3::hash(&input).as_bytes());
    assert_eq!(v.dim(), 2);
}

#[test]
fn alpha_of_nan_is_out_of_range() {
    let err = steering_vector(&[1.0, 0.0], f32::NAN).unwrap_err();
    assert_eq!(err, SteeringError::AlphaOutOfRange);
    assert!(steering_vector(&[1.0, 0.0], 0.0).is_ok());
    assert!(steering_vector(&[1.0, 0.0], 1.0).is_ok());
    assert!(steering_vector(&[1.0, 0.0], -0.5).is_err());
}

#[test]
fn a_length_that_is_no_number_is_not_one() {
    for dir in [[f32::NAN, 0.0], [f32::INFINITY, 0.0]] {
        let err = steering_vector(&dir, 0.5).unwrap_err();
        assert_eq!(err, SteeringError::NotUnitNorm);
    }
    let nan = f32::NAN.to_bits();
    let half = 0.5f32.to_bits();
    let err = SteeringVector::new(&unit, bits(&[1.0, 0.0]), half, nan).unwrap_err();
    assert_eq!(err, SteeringError::NotUnitNorm);
    let err = SteeringVector::new(&unit, bits(&[f32::NAN]), nan, half).unwrap_err();
    assert_eq!(err, SteeringError::AlphaOutOfRange);
}

#[test]
fn accepted_vectors_verify_with_the_same_tolerance() {
    for tol in [0.0f32, 1e-4, 0.5, 10.0] {
        for x in [0.5f32, 0.99995, 1.0, 1.2, 11.0, 12.0] {
            let made = SteeringVector::new(&unit, bits(&[x]), 0.5f32.to_bits(), tol.to_bits());
            assert_eq!(made.is_ok(), (x - 1.0).abs() <= tol);
            if let Ok(v) = made {
                assert!(v.verify(&unit, tol.to_bits()));
            }
        }
    }
}

#[test]
fn errors_have_messages() {
    assert_eq!(
        SteeringError::NotUnitNorm.message(),
        "direction vector is not unit-norm"
    );
    assert_eq!(
        SteeringError::AlphaOutOfRange.message(),
        "alpha must be in [0.0, 1.0]"
    );
}
