use latent_db::LatentDb;
use latent_db::arith::Op;
use latent_db::steering::SteeringError;
use latent_db::wasm::{AnchorMismatch, WasmLatentDb};
use rand::rngs::StdRng;
use rand::{Rng, SeedableRng};
use std::cell::RefCell;
use std::collections::HashMap;

/// The arithmetic of single-precision numbers, with one pattern for NaN.
fn unit(op: Op, a: u32, b: u32, c: u32) -> u32 {
    let (x, y, z) = (f32::from_bits(a), f32::from_bits(b), f32::from_bits(c));
    let r: f32 = match op {
        Op::Add => x + y,
        Op::Sub => x - y,
        Op::Mul => x * y,
        Op::Div => x / y,
        Op::Fma => x.mul_add(y, z),
        Op::Sqrt => x.sqrt(),
        Op::Ln => x.ln(),
        Op::Cos => x.cos(),
        Op::Acos => x.acos(),
        Op::Powf => x.powf(y),
        Op::Powi => x.powi(b as i32),
        Op::Count => (a as u64 + ((b as u64) << 32)) as f32,
    };
    if r.is_nan() {
        f32::NAN.to_bits()
    } else {
        r.to_bits()
    }
}

fn bits(v: &[f32]) -> Vec<u32> {
    v.iter().map(|x| x.to_bits()).collect()
}

fn num(x: u32) -> f32 {
    f32::from_bits(x)
}

/// Draw number `i` after a seed, as a generator gives them one by one.
fn source(next: fn(&mut StdRng, u64) -> f32) -> impl Fn(u64, u64) -> u32 {
    let drawn: RefCell<HashMap<u64, (StdRng, Vec<u32>)>> = RefCell::new(HashMap::new());
    move |seed, i| {
        let mut drawn = drawn.borrow_mut();
        let entry = drawn
            .entry(seed)
            .or_insert_with(|| (StdRng::seed_from_u64(seed), Vec::new()));
        while entry.1.len() as u64 <= i {
            let n = entry.1.len() as u64;
            let x = next(&mut entry.0, n);
            entry.1.push(x.to_bits());
        }
        entry.1[i as usize]
    }
}

/// Draws for the entries of a projection.
fn entries() -> impl Fn(u64, u64) -> u32 {
    source(|rng, n| {
        if n % 2 == 0 {
            rng.gen_range(1e-9..1.0)
        } else {
            rng.gen_range(0.0..1.0)
        }
    })
}

/// A database of points on a line, a unit apart.
fn line(n: usize) -> WasmLatentDb {
    let corpus: Vec<Vec<u32>> = (0..n).map(|i| bits(&[i as f32 * 10.0, 1.0])).collect();
    let mut inner = LatentDb::build(&unit, &entries(), &corpus, 1, n, 2, 2, 3);
    for (i, v) in corpus.iter().enumerate() {
        inner.insert(&unit, v, format!("point {i}")).unwrap();
    }
    WasmLatentDb { inner }
}

#[test]
fn explorations_report_graph_walk_and_path() {
    let db = line(8);
    assert_eq!(db.len(), 8);
    assert_eq!(db.dim(), 2);
    assert!(!db.is_empty());
    let e = db
        .explore_neighborhood(&unit, bits(&[0.0, 1.0]), 3, 1, 5, 42)
        .unwrap();
    assert!(e.n_nodes >= 3);
    assert!(e.n_edges >= 1);
    assert_eq!(e.random_walk.len(), 6);
    let first = &e.random_walk[0];
    let metadata = db.inner.get_metadata(first.id).map(|m| m.to_string());
    assert_eq!(first.metadata, metadata);
    if let Some(g) = &e.geodesic {
        assert_eq!(g.hops, g.path.len() - 1);
        assert_eq!(g.path[0].id, g.from);
        assert_eq!(g.path[g.hops].id, g.to);
        assert_eq!(g.from, first.id);
    }
}

#[test]
fn the_radius_reaches_a_margin_beyond_the_last_neighbour() {
    let db = line(1);
    let e = db
        .explore_neighborhood(&unit, bits(&[3.0, 5.0]), 1, 1, 0, 1)
        .unwrap();
    assert_eq!(num(e.radius), 5.0 + 1e-4);
    assert_eq!(e.n_nodes, 1);
    assert_eq!(e.n_edges, 0);
    assert_eq!(e.random_walk.len(), 1);
    assert!(e.geodesic.is_none());
}

#[test]
fn an_empty_database_has_no_neighbourhood() {
    let mut db = line(1);
    db.inner.remove(0);
    let e = db
        .explore_neighborhood(&unit, bits(&[3.0, 5.0]), 4, 2, 3, 1)
        .unwrap();
    assert_eq!(num(e.radius), f32::INFINITY);
    assert_eq!(e.n_nodes, 0);
    assert!(e.random_walk.is_empty());
    assert!(e.geodesic.is_none());
}

#[test]
fn anchors_of_another_dimension_are_refused() {
    let db = line(3);
    let err = db
        .explore_neighborhood(&unit, bits(&[1.0]), 1, 1, 1, 1)
        .unwrap_err();
    assert_eq!(
        err,
        AnchorMismatch {
            got: 1,
            expected: 2
        }
    );
}

#[test]
fn searches_go_through() {
    let db = line(4);
    let query = bits(&[30.0, 1.0]);
    let hits = db.search(&unit, &query, 4, 2);
    assert_eq!(hits.len(), 4);
    let half = 0.5f32.to_bits();
    let tol = 1e-4f32.to_bits();
    let steered = db
        .search_steered(&unit, &query, 4, 2, bits(&[1.0, 0.0]), half, tol)
        .unwrap();
    assert_eq!(steered.len(), 4);
    assert_eq!(
        db.search_steered(&unit, &query, 4, 2, bits(&[1.0, 1.0]), half, tol)
            .unwrap_err(),
        SteeringError::NotUnitNorm
    );
    assert_eq!(
        db.search_steered(&unit, &query, 4, 2, bits(&[1.0, 0.0]), 2.0f32.to_bits(), tol)
            .unwrap_err(),
        SteeringError::AlphaOutOfRange
    );
}
