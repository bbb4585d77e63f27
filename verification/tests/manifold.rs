use latent_db::arith::Op;
use latent_db::{build_viable_graph, ViableGraph};
use std::collections::HashMap;

/// The arithmetic of single-precision numbers, with one pattern for NaN.
fn unit(op: Op, a: u32, b: u32, c: u32) -> u32 {
    let (x, y, z) = (f32::from_bits(a), f32::from_bits(b), f32::from_bits(c));
    let r: f32 = match op {
        Op::Add => x + y,
        Op::Sub => x - y,
        Op::Mul => x * y,
        Op::Div => x / y,
        Op::Fma => x.mul_add(y, z),
        Op::Sqrt => x.sqrt(),
        Op::Ln => x.ln(),
        Op::Cos => x.cos(),
        Op::Acos => x.acos(),
        Op::Powf => x.powf(y),
        Op::Powi => x.powi(b as i32),
        Op::Count => (a as u64 + ((b as u64) << 32)) as f32,
    };
    if r.is_nan() {
        f32::NAN.to_bits()
    } else {
        r.to_bits()
    }
}

fn bits(v: &[f32]) -> Vec<u32> {
    v.iter().map(|x| x.to_bits()).collect()
}

fn floats(v: &[u32]) -> Vec<f32> {
    v.iter().map(|x| f32::from_bits(*x)).collect()
}

/// A predicate on numbers as one on bit patterns.
fn on_bits(p: impl Fn(&[f32]) -> bool) -> impl Fn(&[u32]) -> bool {
    move |v| p(&floats(v))
}

fn packed(records: &[(u64, Vec<f32>)]) -> Vec<(u64, Vec<u32>)> {
    records.iter().map(|(id, v)| (*id, bits(v))).collect()
}

fn graph_from(
    records: &[(u64, Vec<f32>)],
    p: impl Fn(&[f32]) -> bool,
    k: usize,
    check: bool,
) -> ViableGraph {
    build_viable_graph(&unit, &packed(records), &on_bits(p), k, check)
}

/// Two disks of radius 1.5 around (-2, 0) and (2, 0), joined by a corridor.
fn two_disk_corridor(z: &[f32]) -> bool {
    let (x, y) = (z[0], z[1]);
    let dl = ((x + 2.0).powi(2) + y * y).sqrt();
    let dr = ((x - 2.0).powi(2) + y * y).sqrt();
    dl < 1.5 || dr < 1.5 || (x.abs() < 2.0 && y.abs() < 0.4)
}

fn grid_records(step: f32) -> Vec<(u64, Vec<f32>)> {
    let mut out = Vec::new();
    let mut id = 0u64;
    let mut i = -5.0f32;
    while i <= 5.0 {
        let mut j = -5.0f32;
        while j <= 5.0 {
            out.push((id, vec![i, j]));
            id += 1;
            j += step;
        }
        i += step;
    }
    out
}

fn build_corridor_graph() -> ViableGraph {
    graph_from(&grid_records(0.25), two_disk_corridor, 4, true)
}

#[test]
fn keeps_only_records_passing_the_predicate() {
    let records = grid_records(0.25);
    let expected_kept = records.iter().filter(|(_, v)| two_disk_corridor(v)).count();
    let g = graph_from(&records, two_disk_corridor, 4, false);
    assert_eq!(g.n_nodes(), expected_kept);
    assert!(g.n_edges() > 0);
}

#[test]
fn edge_midpoint_check_rejects_edges_that_shortcut_a_non_viable_gap() {
    let predicate = |z: &[f32]| z[0].abs() < 0.5 || (z[0] - 4.0).abs() < 0.5;
    let records = vec![(0u64, vec![0.0, 0.0]), (1u64, vec![4.0, 0.0])];

    let without_check = graph_from(&records, predicate, 1, false);
    assert_eq!(
        without_check.geodesic(&unit, 0, 1),
        Some(vec![0, 1]),
        "no midpoint check: the sole candidate edge should connect them"
    );

    let with_check = graph_from(&records, predicate, 1, true);
    assert!(
        with_check.geodesic(&unit, 0, 1).is_none(),
        "midpoint (2,0) fails the predicate, so the edge should be rejected"
    );
}

#[test]
fn geodesic_crosses_the_corridor_and_stays_viable() {
    let records = grid_records(0.25);
    let g = graph_from(&records, two_disk_corridor, 4, true);

    let lookup: HashMap<u64, Vec<f32>> = records.into_iter().collect();
    let src = *lookup
        .iter()
        .filter(|(_, v)| two_disk_corridor(v))
        .min_by(|(_, a), (_, b)| {
            let da = (a[0] + 2.0).powi(2) + a[1].powi(2);
            let db = (b[0] + 2.0).powi(2) + b[1].powi(2);
            da.total_cmp(&db)
        })
        .unwrap()
        .0;
    let dst = *lookup
        .iter()
        .filter(|(_, v)| two_disk_corridor(v))
        .min_by(|(_, a), (_, b)| {
            let da = (a[0] - 2.0).powi(2) + a[1].powi(2);
            let db = (b[0] - 2.0).powi(2) + b[1].powi(2);
            da.total_cmp(&db)
        })
        .unwrap()
        .0;

    let path = g.geodesic(&unit, src, dst).expect("corridor connects the disks");
    assert_eq!(path.first(), Some(&src));
    assert_eq!(path.last(), Some(&dst));
    for id in &path {
        assert!(
            two_disk_corridor(&lookup[id]),
            "path visited non-viable id {id}"
        );
    }
    // A shortest path never revisits a node.
    let mut sorted = path.clone();
    sorted.sort_unstable();
    let before = sorted.len();
    sorted.dedup();
    assert_eq!(sorted.len(), before);
}

#[test]
fn geodesic_is_none_for_disconnected_nodes() {
    let records = vec![
        (0u64, vec![0.0, 0.0]),
        (1u64, vec![0.1, 0.0]),
        (2u64, vec![0.0, 0.1]),
        (10u64, vec![100.0, 100.0]),
        (11u64, vec![100.1, 100.0]),
        (12u64, vec![100.0, 100.1]),
    ];
    let g = graph_from(&records, |_| true, 1, false);
    assert!(g.geodesic(&unit, 0, 10).is_none());
}

#[test]
fn geodesic_is_none_for_unknown_ids() {
    let g = build_corridor_graph();
    assert!(g.geodesic(&unit, 999_999, 0).is_none());
}

#[test]
fn random_walk_never_leaves_the_viable_subset() {
    let records = grid_records(0.25);
    let g = graph_from(&records, two_disk_corridor, 4, true);
    let lookup: HashMap<u64, Vec<f32>> = records.into_iter().collect();
    let start = *lookup.iter().find(|(_, v)| two_disk_corridor(v)).unwrap().0;

    let walk = g.random_walk(start, 40, 0xC0FFEE);
    assert_eq!(walk.len(), 41);
    assert_eq!(walk.first(), Some(&start));
    for id in &walk {
        assert!(
            two_disk_corridor(&lookup[id]),
            "walk visited non-viable id {id}"
        );
    }
}

#[test]
fn random_walk_is_deterministic_for_a_fixed_seed() {
    let g = build_corridor_graph();
    let start = g.ids()[0];
    let walk_a = g.random_walk(start, 30, 42);
    let walk_b = g.random_walk(start, 30, 42);
    assert_eq!(walk_a, walk_b);
}

#[test]
fn random_walk_parks_at_an_isolated_node() {
    let records = vec![(7u64, vec![0.0, 0.0])];
    let g = graph_from(&records, |_| true, 4, false);
    let walk = g.random_walk(7, 5, 1);
    assert_eq!(walk, vec![7, 7, 7, 7, 7, 7]);
}

#[test]
fn random_walk_on_unknown_start_is_empty() {
    let g = build_corridor_graph();
    assert!(g.random_walk(999_999, 5, 1).is_empty());
}

#[test]
fn boundary_classes_separates_a_hub_from_its_symmetric_leaves() {
    let records = vec![
        (0u64, vec![-1.0, 0.0]),
        (1u64, vec![0.0, 0.0]),
        (2u64, vec![1.0, 0.0]),
    ];
    let g = graph_from(&records, |_| true, 1, false);
    assert_eq!(g.neighbors(1).len(), 2, "hub should connect to both leaves");

    let classes = g.boundary_classes();
    assert_eq!(classes.n_classes(), 2);
    assert!(
        classes.same_class(0, 2),
        "the two leaves have identical neighbor sets ({{hub}}) and must collapse"
    );
    assert!(
        !classes.same_class(0, 1),
        "the hub has a structurally distinct neighborhood (degree 2 vs 1)"
    );
}

#[test]
fn boundary_classes_collapse_across_isomorphic_but_disconnected_stars() {
    let records = vec![
        (10u64, vec![-1.0, 0.0]),
        (11u64, vec![0.0, 0.0]),
        (12u64, vec![1.0, 0.0]),
        (20u64, vec![999.0, 0.0]),
        (21u64, vec![1000.0, 0.0]),
        (22u64, vec![1001.0, 0.0]),
    ];
    let g = graph_from(&records, |_| true, 1, false);

    let classes = g.boundary_classes();
    assert_eq!(
        classes.n_classes(),
        2,
        "just {{hub, leaf}} structural roles"
    );
    assert!(classes.same_class(11, 21), "hub A ~ hub B");
    assert!(classes.same_class(10, 20), "leaf A ~ leaf B");
    assert!(classes.same_class(10, 12), "leaves within A collapse");
    assert!(classes.same_class(12, 22), "leaves across A/B collapse");
    assert!(!classes.same_class(11, 10), "hub role != leaf role");

    let groups = classes.classes();
    assert_eq!(groups.len(), 2);
    let hub_group = groups.iter().find(|group| group.contains(&11)).unwrap();
    assert_eq!(hub_group, &vec![11, 21]);
    let leaf_group = groups.iter().find(|group| group.contains(&10)).unwrap();
    assert_eq!(leaf_group, &vec![10, 12, 20, 22]);
}

#[test]
fn boundary_classes_on_empty_graph_has_no_classes() {
    let g = graph_from(&[], |_: &[f32]| true, 4, false);
    let classes = g.boundary_classes();
    assert_eq!(classes.n_classes(), 0);
    assert_eq!(classes.class_of(0), None);
    assert!(classes.classes().is_empty());
}

#[test]
fn boundary_classes_of_unknown_id_is_none() {
    let g = build_corridor_graph();
    assert_eq!(g.boundary_classes().class_of(999_999), None);
}

#[test]
fn boundary_classes_is_deterministic() {
    let g = build_corridor_graph();
    let a = g.boundary_classes();
    let b = g.boundary_classes();
    assert_eq!(a.n_classes(), b.n_classes());
    for &id in g.ids() {
        assert_eq!(a.class_of(id), b.class_of(id));
    }
}

#[test]
fn classes_split_by_degree() {
    // A path of five: the ends, the nodes next to them, and the middle.
    let records: Vec<(u64, Vec<f32>)> = (0..5).map(|i| (i as u64, vec![i as f32])).collect();
    let g = graph_from(&records, |_| true, 1, false);
    assert_eq!(g.neighbors(0), vec![1]);
    assert_eq!(g.neighbors(2), vec![1, 3]);
    assert_eq!(g.n_edges(), 4);
    let classes = g.boundary_classes();
    assert_eq!(classes.n_classes(), 3);
    assert!(classes.same_class(0, 4));
    assert!(classes.same_class(1, 3));
    assert!(!classes.same_class(1, 2));
    assert!(!classes.same_class(0, 99));
    assert_eq!(classes.class_of(0), Some(0));
    assert_eq!(classes.class_of(1), Some(1));
    assert_eq!(classes.class_of(2), Some(2));
}

#[test]
fn geodesic_prefers_the_shorter_of_two_ways() {
    // From 0 to 3 over 1 is 2, over 2 is longer.
    let records = vec![
        (0u64, vec![0.0, 0.0]),
        (1u64, vec![1.0, 0.0]),
        (2u64, vec![1.0, 2.0]),
        (3u64, vec![2.0, 0.0]),
    ];
    let g = graph_from(&records, |_| true, 2, false);
    assert_eq!(g.geodesic(&unit, 0, 3), Some(vec![0, 3]));
    assert_eq!(g.geodesic(&unit, 0, 0), Some(vec![0]));
    assert!(g.geodesic(&unit, 0, 99).is_none());
}

#[test]
fn checking_midpoints_only_takes_edges_away() {
    let records = grid_records(0.5);
    let free = graph_from(&records, two_disk_corridor, 4, false);
    let checked = graph_from(&records, two_disk_corridor, 4, true);
    assert_eq!(free.ids(), checked.ids());
    let lookup: HashMap<u64, Vec<f32>> = records.into_iter().collect();
    let mut gone = 0;
    for &a in free.ids() {
        for &b in free.ids() {
            let mid: Vec<f32> = lookup[&a]
                .iter()
                .zip(&lookup[&b])
                .map(|(x, y)| 0.5 * (x + y))
                .collect();
            let want = free.neighbors(a).contains(&b) && two_disk_corridor(&mid);
            assert_eq!(checked.neighbors(a).contains(&b), want);
            if free.neighbors(a).contains(&b) && !want {
                gone += 1;
            }
        }
    }
    assert_eq!(free.n_edges() * 2 - gone, checked.n_edges() * 2);
}

#[test]
fn equally_near_nodes_are_taken_in_order() {
    let records = vec![
        (0u64, vec![0.0]),
        (1u64, vec![1.0]),
        (2u64, vec![-1.0]),
    ];
    let g = graph_from(&records, |_| true, 1, false);
    assert_eq!(g.neighbors(0), vec![1, 2]);
    assert_eq!(g.neighbors(1), vec![0]);
    assert_eq!(g.neighbors(99), Vec::<u64>::new());
    assert_eq!(g.node_of(2), Some(2));
    assert_eq!(g.coords_of(2), Some(&bits(&[-1.0])));
    assert!(g.coords_of(3).is_none());
}

#[test]
fn a_step_goes_to_the_neighbour_that_was_drawn() {
    let records: Vec<(u64, Vec<f32>)> = (0..3).map(|i| (i as u64, vec![i as f32])).collect();
    let g = graph_from(&records, |_| true, 1, false);
    assert_eq!(g.step(1, 0), 0);
    assert_eq!(g.step(1, 1), 2);
    assert_eq!(g.step(0, 0), 1);
}

#[test]
fn walks_visit_more_than_one_neighbour() {
    let records: Vec<(u64, Vec<f32>)> = (0..3).map(|i| (i as u64, vec![i as f32])).collect();
    let g = graph_from(&records, |_| true, 1, false);
    let mut seen = [false; 3];
    for seed in 0..20 {
        for id in g.random_walk(1, 6, seed) {
            seen[id as usize] = true;
        }
    }
    assert_eq!(seen, [true; 3]);
}
