use latent_db::arith::Op;
use latent_db::bandit::reduction::pca_reduce;
use latent_db::bandit::sampling::{sample_beta, sample_gamma};
use latent_db::bandit::{RegionBelief, RegionTree, RegionTreeConfig};
use rand::rngs::StdRng;
use rand::{Rng, SeedableRng};
use std::cell::RefCell;
use std::collections::HashMap;
use std::collections::HashSet;

/// The arithmetic of single-precision numbers, with one pattern for NaN.
fn unit(op: Op, a: u32, b: u32, c: u32) -> u32 {
    let (x, y, z) = (f32::from_bits(a), f32::from_bits(b), f32::from_bits(c));
    let r: f32 = match op {
        Op::Add => x + y,
        Op::Sub => x - y,
        Op::Mul => x * y,
        Op::Div => x / y,
        Op::Fma => x.mul_add(y, z),
        Op::Sqrt => x.sqrt(),
        Op::Ln => x.ln(),
        Op::Cos => x.cos(),
        Op::Acos => x.acos(),
        Op::Powf => x.powf(y),
        Op::Powi => x.powi(b as i32),
        Op::Count => (a as u64 + ((b as u64) << 32)) as f32,
    };
    if r.is_nan() {
        f32::NAN.to_bits()
    } else {
        r.to_bits()
    }
}

fn bits(v: &[f32]) -> Vec<u32> {
    v.iter().map(|x| x.to_bits()).collect()
}

fn floats(v: &[u32]) -> Vec<f32> {
    v.iter().map(|x| f32::from_bits(*x)).collect()
}

fn num(x: u32) -> f32 {
    f32::from_bits(x)
}

/// Draw number `i` after a seed, as a generator gives them one by one.
fn source(next: fn(&mut StdRng, u64) -> f32) -> impl Fn(u64, u64) -> u32 {
    let drawn: RefCell<HashMap<u64, (StdRng, Vec<u32>)>> = RefCell::new(HashMap::new());
    move |seed, i| {
        let mut drawn = drawn.borrow_mut();
        let entry = drawn
            .entry(seed)
            .or_insert_with(|| (StdRng::seed_from_u64(seed), Vec::new()));
        while entry.1.len() as u64 <= i {
            let n = entry.1.len() as u64;
            let x = next(&mut entry.0, n);
            entry.1.push(x.to_bits());
        }
        entry.1[i as usize]
    }
}

/// Draws between minus one and one.
fn signed() -> impl Fn(u64, u64) -> u32 {
    source(|rng, _| rng.gen_range(-1.0f32..1.0))
}

/// Draws from zero to below one.
fn fractions() -> impl Fn(u64, u64) -> u32 {
    source(|rng, _| rng.gen::<f32>())
}

fn synthetic_records(n: usize, dim: usize, seed: u64) -> Vec<(u64, Vec<u32>)> {
    let mut rng = StdRng::seed_from_u64(seed);
    (0..n as u64)
        .map(|id| {
            let v: Vec<f32> = (0..dim).map(|_| rng.gen_range(-1.0f32..1.0)).collect();
            (id, bits(&v))
        })
        .collect()
}

fn grow(records: &Vec<(u64, Vec<u32>)>, config: RegionTreeConfig) -> RegionTree {
    RegionTree::build(&unit, &signed(), records, config)
}

fn belief_of(tree: &RegionTree, id: u64) -> Option<(f32, f32)> {
    tree.leaf_belief(id).map(|(a, b)| (num(a), num(b)))
}

#[test]
fn build_covers_every_record_as_an_arm() {
    let records = synthetic_records(40, 12, 1);
    let tree = grow(&records, RegionTreeConfig::default());
    assert_eq!(tree.num_arms(), records.len());
    for (id, _) in &records {
        assert!(tree.leaf_belief(*id).is_some());
    }
}

#[test]
fn single_record_builds_a_bare_leaf() {
    let records = vec![(7u64, bits(&[1.0, 2.0, 3.0]))];
    let tree = grow(&records, RegionTreeConfig::default());
    assert_eq!(tree.num_arms(), 1);
    assert_eq!(tree.sample(&unit, &fractions(), 0), 7);
    assert_eq!(belief_of(&tree, 7), Some((1.0, 1.0)));
}

#[test]
fn sample_always_returns_a_known_arm() {
    let records = synthetic_records(50, 8, 2);
    let tree = grow(&records, RegionTreeConfig::default());
    let ids: HashSet<u64> = records.iter().map(|(id, _)| *id).collect();
    let draws = fractions();
    for seed in 0..200u64 {
        assert!(ids.contains(&tree.sample(&unit, &draws, seed)));
    }
}

#[test]
fn sample_is_deterministic_for_a_fixed_seed() {
    let records = synthetic_records(50, 8, 3);
    let tree = grow(&records, RegionTreeConfig::default());
    assert_eq!(
        tree.sample(&unit, &fractions(), 42),
        tree.sample(&unit, &fractions(), 42)
    );
}

#[test]
fn observe_on_unknown_arm_is_a_silent_no_op() {
    let records = synthetic_records(20, 8, 4);
    let mut tree = grow(&records, RegionTreeConfig::default());
    let before: Vec<(f32, f32)> = records
        .iter()
        .map(|(id, _)| belief_of(&tree, *id).unwrap())
        .collect();
    tree.observe(&unit, 999_999, 1.0f32.to_bits(), 1);
    let after: Vec<(f32, f32)> = records
        .iter()
        .map(|(id, _)| belief_of(&tree, *id).unwrap())
        .collect();
    assert_eq!(before, after);
}

#[test]
fn observe_raises_the_observed_leafs_alpha_and_its_ancestors() {
    let records = synthetic_records(30, 8, 5);
    let config = RegionTreeConfig {
        branching_factor: 3,
        max_depth: 2,
        min_leaf_size: 2,
        ..RegionTreeConfig::default()
    };
    let mut tree = grow(&records, config);
    let arm = records[0].0;
    let (alpha_before, _) = belief_of(&tree, arm).unwrap();
    let root_alpha_before = num(tree.root_belief().0);

    for step in 0..20u64 {
        tree.observe(&unit, arm, 1.0f32.to_bits(), step);
    }

    let (alpha_after, _) = belief_of(&tree, arm).unwrap();
    let root_alpha_after = num(tree.root_belief().0);
    assert!(alpha_after > alpha_before + 15.0);
    assert!(
        root_alpha_after > root_alpha_before,
        "repeated reward on one leaf should raise the root's aggregate alpha too"
    );
}

#[test]
fn repeated_sample_observe_converges_toward_the_more_rewarding_cluster() {
    let per_cluster = 12;
    let dim = 8;
    let clusters = [0usize, 1, 2];
    let mut jitter_rng = StdRng::seed_from_u64(777);
    let mut records: Vec<(u64, Vec<u32>)> = Vec::new();
    let mut cluster_of: HashMap<u64, usize> = HashMap::new();
    let mut next_id = 0u64;
    for &cluster in &clusters {
        for _ in 0..per_cluster {
            let mut v: Vec<f32> = (0..dim)
                .map(|_| jitter_rng.gen_range(-0.05f32..0.05))
                .collect();
            v[cluster] += 10.0;
            records.push((next_id, bits(&v)));
            cluster_of.insert(next_id, cluster);
            next_id += 1;
        }
    }

    let config = RegionTreeConfig {
        pca_dim: 4,
        branching_factor: 3,
        max_depth: 1,
        min_leaf_size: 1,
        filter_drift_rate: 0.0f32.to_bits(),
        kmeans_iterations: 15,
        seed: 11,
    };

    let reward_prob = |cluster: usize| -> f32 {
        match cluster {
            0 => 0.9,
            1 => 0.5,
            _ => 0.1,
        }
    };
    let n_trials: u64 = 900;
    let warmup = n_trials / 2;

    let late_cluster0_rate = |tree: &mut RegionTree, with_learning: bool| -> f32 {
        let mut reward_rng = StdRng::seed_from_u64(999);
        let mut hits = 0u32;
        let draws = fractions();
        for step in 0..n_trials {
            let arm = tree.sample(&unit, &draws, step);
            let cluster = cluster_of[&arm];
            if with_learning {
                let reward: f32 = if reward_rng.gen::<f32>() < reward_prob(cluster) {
                    1.0
                } else {
                    0.0
                };
                tree.observe(&unit, arm, reward.to_bits(), step);
            }
            if step >= warmup && cluster == 0 {
                hits += 1;
            }
        }
        hits as f32 / (n_trials - warmup) as f32
    };

    let mut baseline_tree = grow(&records, config);
    let baseline_rate = late_cluster0_rate(&mut baseline_tree, false);

    let mut tree = grow(&records, config);
    assert_eq!(tree.num_arms(), records.len());
    let learned_rate = late_cluster0_rate(&mut tree, true);

    assert!(
        learned_rate > baseline_rate + 0.2,
        "expected learning to beat the measured baseline by a solid margin: \
         learned_rate={learned_rate}, baseline_rate={baseline_rate}"
    );
}

#[test]
fn drift_decays_a_stale_belief_toward_uniform() {
    let mut belief = RegionBelief::new(0.5f32.to_bits());
    belief.update(&unit, 0.5f32.to_bits(), 0);
    let (stale_alpha, stale_beta) = (num(belief.alpha), num(belief.beta));
    belief.predict(&unit, 20);
    assert!(num(belief.alpha) < stale_alpha);
    assert!(num(belief.beta) < stale_beta);
    assert!((num(belief.alpha) - 1.0).abs() < 1e-3);
    assert!((num(belief.beta) - 1.0).abs() < 1e-3);
}

#[test]
fn zero_drift_rate_leaves_a_stale_belief_unchanged() {
    let mut belief = RegionBelief::new(0.0f32.to_bits());
    belief.update(&unit, 1.0f32.to_bits(), 0);
    let before = (belief.alpha, belief.beta);
    belief.predict(&unit, 100);
    assert_eq!((belief.alpha, belief.beta), before);
}

#[test]
fn region_members_includes_the_record_itself_and_its_group() {
    let records = synthetic_records(30, 8, 6);
    let config = RegionTreeConfig {
        branching_factor: 3,
        max_depth: 2,
        min_leaf_size: 2,
        ..RegionTreeConfig::default()
    };
    let tree = grow(&records, config);
    let arm = records[0].0;
    let members = tree.region_members(arm).unwrap();
    assert!(members.contains(&arm));
    assert!(
        members.len() >= 2,
        "min_leaf_size=2 rules out a bare singleton region here"
    );
}

#[test]
fn region_members_of_a_lone_record_is_just_itself() {
    let records = vec![(7u64, bits(&[1.0, 2.0, 3.0]))];
    let tree = grow(&records, RegionTreeConfig::default());
    assert_eq!(tree.region_members(7), Some(vec![7]));
}

#[test]
fn region_members_of_unknown_id_is_none() {
    let records = synthetic_records(20, 8, 7);
    let tree = grow(&records, RegionTreeConfig::default());
    assert_eq!(tree.region_members(999_999), None);
}

#[test]
fn a_belief_of_any_age_fades_towards_uniform() {
    for step in [1u64 << 31, (1 << 32) - 1, 1 << 32, (1 << 32) + 1, u64::MAX] {
        let mut belief = RegionBelief::new(0.5f32.to_bits());
        belief.update(&unit, 0.5f32.to_bits(), 0);
        assert_eq!((num(belief.alpha), num(belief.beta)), (1.5, 1.5));
        belief.predict(&unit, step);
        assert_eq!((num(belief.alpha), num(belief.beta)), (1.0, 1.0));
    }
}

#[test]
fn beliefs_fade_by_a_power_of_what_is_kept() {
    let mut belief = RegionBelief::new(0.5f32.to_bits());
    belief.update(&unit, 1.0f32.to_bits(), 4);
    belief.predict(&unit, 6);
    assert_eq!((num(belief.alpha), num(belief.beta)), (1.25, 1.0));
}

#[test]
fn a_repeated_record_is_observed_at_its_last_place() {
    let records = vec![(7u64, bits(&[0.0])), (8, bits(&[1.0])), (7, bits(&[2.0]))];
    let mut tree = grow(&records, RegionTreeConfig::default());
    assert_eq!(tree.num_arms(), 2);
    tree.observe(&unit, 7, 1.0f32.to_bits(), 1);
    assert_eq!(belief_of(&tree, 7), Some((2.0, 1.0)));
    assert_eq!(tree.region_members(7), Some(vec![7, 7, 8]));
}

#[test]
fn shapes_below_zero_are_lifted_step_by_step() {
    let draws = fractions();
    let (x, end) = sample_gamma(&unit, &draws, 1, (-1.5f32).to_bits(), 0);
    let (mut g, mut at) = sample_gamma(&unit, &draws, 1, 1.5f32.to_bits(), 0);
    for shape in [0.5f32, -0.5, -1.5] {
        let w = num(draws(1, at)).max(f32::EPSILON);
        g = (num(g) * w.powf(1.0 / shape)).to_bits();
        at += 1;
    }
    assert_eq!((x, end), (g, at));
}

#[test]
fn rewards_move_beliefs_by_their_amount() {
    let mut belief = RegionBelief::new(0.0f32.to_bits());
    belief.update(&unit, 0.25f32.to_bits(), 3);
    assert_eq!((num(belief.alpha), num(belief.beta)), (1.25, 1.75));
}

#[test]
fn observing_one_record_leaves_the_others_alone() {
    let records = synthetic_records(30, 8, 8);
    let mut tree = grow(&records, RegionTreeConfig::default());
    tree.observe(&unit, 3, 1.0f32.to_bits(), 1);
    for (id, _) in &records {
        let want = if *id == 3 { (2.0, 1.0) } else { (1.0, 1.0) };
        assert_eq!(belief_of(&tree, *id), Some(want));
    }
}

#[test]
fn a_region_pools_the_beliefs_of_its_parts() {
    let records = synthetic_records(3, 4, 9);
    let mut tree = grow(&records, RegionTreeConfig::default());
    assert_eq!(tree.root_belief(), (1.0f32.to_bits(), 1.0f32.to_bits()));
    tree.observe(&unit, 0, 1.0f32.to_bits(), 1);
    tree.observe(&unit, 1, 0.0f32.to_bits(), 2);
    assert_eq!(tree.root_belief(), (2.0f32.to_bits(), 2.0f32.to_bits()));
}

#[test]
fn far_groups_become_regions() {
    let mut records = Vec::new();
    for i in 0..10u64 {
        let at = if i < 5 { 0.0 } else { 100.0 };
        records.push((i, bits(&[at + i as f32 * 0.01, at])));
    }
    let config = RegionTreeConfig {
        branching_factor: 2,
        max_depth: 1,
        min_leaf_size: 2,
        ..RegionTreeConfig::default()
    };
    let tree = grow(&records, config);
    let mut members = tree.region_members(7).unwrap();
    members.sort_unstable();
    assert_eq!(members, vec![5, 6, 7, 8, 9]);
}

#[test]
fn regions_split_no_further_than_the_depth_limit() {
    // At the limit all records stay together, however many there are.
    let records = synthetic_records(30, 4, 10);
    let config = RegionTreeConfig {
        max_depth: 0,
        min_leaf_size: 1,
        ..RegionTreeConfig::default()
    };
    let tree = grow(&records, config);
    let all: Vec<u64> = (0..30).collect();
    for id in 0..30 {
        assert_eq!(tree.region_members(id), Some(all.clone()));
        assert_eq!(belief_of(&tree, id), Some((1.0, 1.0)));
    }
    assert_eq!(tree.root_belief(), (1.0f32.to_bits(), 1.0f32.to_bits()));
}

#[test]
fn a_lone_record_is_a_leaf_even_where_regions_may_be_empty() {
    let config = RegionTreeConfig {
        min_leaf_size: 0,
        ..RegionTreeConfig::default()
    };
    let tree = grow(&vec![(4, bits(&[1.0, 2.0]))], config);
    assert_eq!(tree.region_members(4), Some(vec![4]));
    assert_eq!(tree.num_arms(), 1);
}

#[test]
fn new_trees_hold_uniform_beliefs() {
    let records = synthetic_records(60, 6, 11);
    let config = RegionTreeConfig {
        branching_factor: 3,
        min_leaf_size: 1,
        filter_drift_rate: 0.25f32.to_bits(),
        ..RegionTreeConfig::default()
    };
    let tree = grow(&records, config);
    assert_eq!(tree.root_belief(), (1.0f32.to_bits(), 1.0f32.to_bits()));
    for id in 0..60 {
        assert_eq!(belief_of(&tree, id), Some((1.0, 1.0)));
        assert!(tree.region_members(id).unwrap().len() >= 2);
    }
}

#[test]
fn reduction_keeps_the_direction_of_greatest_spread() {
    let data: Vec<Vec<u32>> = (0..9)
        .map(|i| bits(&[(i as f32 - 4.0) * 3.0, (i as f32 - 4.0) * 4.0, 0.0]))
        .collect();
    let reduced = pca_reduce(&unit, &signed(), &data, 1, 5);
    assert_eq!(reduced.len(), 9);
    for (i, v) in reduced.iter().enumerate() {
        let v = floats(v);
        assert_eq!(v.len(), 1);
        assert!((v[0].abs() - (i as f32 - 4.0).abs() * 5.0).abs() < 1e-3);
    }
}

#[test]
fn beta_draws_follow_their_parameters() {
    let draws = fractions();
    let mean = |alpha: f32, beta: f32| -> f32 {
        let mut sum = 0.0;
        for seed in 0..400 {
            let (x, _) = sample_beta(&unit, &draws, seed, alpha.to_bits(), beta.to_bits(), 0);
            let x = num(x);
            assert!((0.0..=1.0).contains(&x));
            sum += x;
        }
        sum / 400.0
    };
    assert!((mean(8.0, 2.0) - 0.8).abs() < 0.05);
    assert!((mean(2.0, 8.0) - 0.2).abs() < 0.05);
    assert!((mean(1.0, 1.0) - 0.5).abs() < 0.05);
}

#[test]
fn gamma_draws_follow_their_shape() {
    let draws = fractions();
    for shape in [0.5f32, 1.0, 4.0] {
        let mut sum = 0.0;
        for seed in 0..600 {
            let (x, _) = sample_gamma(&unit, &draws, seed, shape.to_bits(), 0);
            assert!(num(x) >= 0.0);
            sum += num(x);
        }
        assert!((sum / 600.0 - shape).abs() < 0.25 * shape.max(1.0));
    }
}
