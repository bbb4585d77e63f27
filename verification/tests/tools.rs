use latent_db::EvictionPolicy;
use latent_db::allocations::AllocStats;
use latent_db::cli::{default_k, default_nprobe, eviction_policy_name, hex};
use latent_db::order;
use latent_db::sorting;

#[test]
fn bytes_are_written_in_lower_case_hexadecimal() {
    assert_eq!(hex(&[0x00, 0x0f, 0xa5, 0xff]), "000fa5ff");
    assert_eq!(hex(&[]), "");
}

#[test]
fn policies_have_names() {
    assert_eq!(eviction_policy_name(EvictionPolicy::OldestFirst), "oldest-first");
    assert_eq!(eviction_policy_name(EvictionPolicy::LowestEnergy), "lowest-energy");
}

#[test]
fn searches_have_defaults() {
    assert_eq!(default_k(), 10);
    assert_eq!(default_nprobe(), 4);
}

#[test]
fn allocations_are_counted_and_wrap() {
    let mut stats = AllocStats::zero();
    stats.record(64);
    stats.record(128);
    assert_eq!(stats.totals(), (2, 192));
    stats.record(usize::MAX);
    assert_eq!(stats.totals(), (3, 191));
}

#[test]
fn comparisons_agree_with_floating_point() {
    let xs = [
        0.0f32,
        -0.0,
        1.0,
        -1.0,
        f32::MAX,
        f32::MIN,
        f32::INFINITY,
        f32::NEG_INFINITY,
        f32::NAN,
        -f32::NAN,
        1e-40,
        -1e-40,
    ];
    for &x in &xs {
        assert_eq!(order::is_nan(x.to_bits()), x.is_nan());
        assert_eq!(order::absolute(x.to_bits()), x.abs().to_bits());
        for &y in &xs {
            let (a, b) = (x.to_bits(), y.to_bits());
            assert_eq!(order::less(a, b), x < y);
            assert_eq!(order::at_most(a, b), x <= y);
            let by_key = order::key_of_position(a).cmp(&order::key_of_position(b));
            assert_eq!(by_key, x.total_cmp(&y));
        }
    }
}

#[test]
fn clamping_agrees_with_floating_point() {
    for x in [-2.0f32, -1.0, 0.5, 1.0, 3.0] {
        let clamped = order::clamp(x.to_bits(), (-1.0f32).to_bits(), 1.0f32.to_bits());
        assert_eq!(f32::from_bits(clamped), x.clamp(-1.0, 1.0));
        assert_eq!(
            f32::from_bits(order::raise(x.to_bits(), 0.75f32.to_bits())),
            x.max(0.75)
        );
    }
}

#[test]
fn lists_are_sorted() {
    assert_eq!(sorting::sort_numbers(vec![3, 1, 2, 1]), vec![1, 1, 2, 3]);
    assert_eq!(sorting::sort_distinct(vec![3, 1, 2, 1]), vec![1, 2, 3]);
    assert_eq!(sorting::sort_ids(vec![9, 4, 7]), vec![4, 7, 9]);
    assert_eq!(
        sorting::rank_pairs(vec![(2, 0), (1, 5), (2, 0), (1, 3)]),
        vec![(1, 3), (1, 5), (2, 0), (2, 0)]
    );
}
