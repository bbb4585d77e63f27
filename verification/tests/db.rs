use latent_db::arena::RecordArena;
use latent_db::arith::Op;
use latent_db::bandit::RegionTreeConfig;
use latent_db::steering::SteeringVector;
use latent_db::superpose::cosine_sim;
use latent_db::text::lowercase_words;
use latent_db::{EvictionPolicy, LatentDb, LatentDbError};
use rand::rngs::StdRng;
use rand::{Rng, SeedableRng};
use std::cell::RefCell;
use std::collections::HashMap;

/// The arithmetic of single-precision numbers, with one pattern for NaN.
fn unit(op: Op, a: u32, b: u32, c: u32) -> u32 {
    let (x, y, z) = (f32::from_bits(a), f32::from_bits(b), f32::from_bits(c));
    let r: f32 = match op {
        Op::Add => x + y,
        Op::Sub => x - y,
        Op::Mul => x * y,
        Op::Div => x / y,
        Op::Fma => x.mul_add(y, z),
        Op::Sqrt => x.sqrt(),
        Op::Ln => x.ln(),
        Op::Cos => x.cos(),
        Op::Acos => x.acos(),
        Op::Powf => x.powf(y),
        Op::Powi => x.powi(b as i32),
        Op::Count => (a as u64 + ((b as u64) << 32)) as f32,
    };
    if r.is_nan() {
        f32::NAN.to_bits()
    } else {
        r.to_bits()
    }
}

fn bits(v: &[f32]) -> Vec<u32> {
    v.iter().map(|x| x.to_bits()).collect()
}

fn floats(v: &[u32]) -> Vec<f32> {
    v.iter().map(|x| f32::from_bits(*x)).collect()
}

fn num(x: u32) -> f32 {
    f32::from_bits(x)
}

/// Draw number `i` after a seed, as a generator gives them one by one.
fn source(next: fn(&mut StdRng, u64) -> f32) -> impl Fn(u64, u64) -> u32 {
    let drawn: RefCell<HashMap<u64, (StdRng, Vec<u32>)>> = RefCell::new(HashMap::new());
    move |seed, i| {
        let mut drawn = drawn.borrow_mut();
        let entry = drawn
            .entry(seed)
            .or_insert_with(|| (StdRng::seed_from_u64(seed), Vec::new()));
        while entry.1.len() as u64 <= i {
            let n = entry.1.len() as u64;
            let x = next(&mut entry.0, n);
            entry.1.push(x.to_bits());
        }
        entry.1[i as usize]
    }
}

/// Draws for the entries of a projection.
fn entries() -> impl Fn(u64, u64) -> u32 {
    source(|rng, n| {
        if n % 2 == 0 {
            rng.gen_range(1e-9..1.0)
        } else {
            rng.gen_range(0.0..1.0)
        }
    })
}

/// Draws between minus one and one.
fn signed() -> impl Fn(u64, u64) -> u32 {
    source(|rng, _| rng.gen_range(-1.0f32..1.0))
}

/// Draws from zero to below one.
fn fractions() -> impl Fn(u64, u64) -> u32 {
    source(|rng, _| rng.gen::<f32>())
}

fn synthetic_corpus(n: usize, dim: usize, seed: u64) -> Vec<Vec<u32>> {
    let mut rng = StdRng::seed_from_u64(seed);
    (0..n)
        .map(|_| {
            let v: Vec<f32> = (0..dim).map(|_| rng.gen_range(-1.0..1.0)).collect();
            bits(&v)
        })
        .collect()
}

fn build(
    corpus: &Vec<Vec<u32>>,
    n_subspaces: usize,
    n_pq_centroids: usize,
    n_index_centroids: usize,
    sketch_dim: usize,
    seed: u64,
) -> LatentDb {
    LatentDb::build(
        &unit,
        &entries(),
        corpus,
        n_subspaces,
        n_pq_centroids,
        n_index_centroids,
        sketch_dim,
        seed,
    )
}

fn restored(db: LatentDb) -> Result<LatentDb, LatentDbError> {
    LatentDb::restore(
        db.dim,
        db.projector,
        db.pq,
        db.index,
        db.records,
        db.hash_to_id,
        db.next_id,
        db.record_budget,
        db.eviction_policy,
    )
}

fn add(db: &mut LatentDb, v: &[u32], metadata: &str) -> u64 {
    db.insert(&unit, v, metadata.to_string()).unwrap()
}

#[test]
fn insert_and_exact_nearest_neighbor_roundtrip() {
    let corpus = synthetic_corpus(300, 32, 1);
    let mut db = build(&corpus, 4, 16, 8, 8, 42);

    let mut ids = Vec::new();
    for (i, v) in corpus.iter().enumerate() {
        let id = add(&mut db, v, &format!("record-{i}"));
        ids.push(id);
    }

    let probe_target = &corpus[10];
    let hits = db.search(&unit, probe_target, 5, db.n_index_centroids());
    assert!(!hits.is_empty());
    assert_eq!(hits[0].id, ids[10]);
}

#[test]
fn search_lut_scoring_matches_decode_baseline_topk_and_order() {
    let corpus = synthetic_corpus(500, 32, 70);
    let mut db = build(&corpus, 4, 16, 8, 8, 71);
    let mut ids = Vec::new();
    for (i, v) in corpus.iter().enumerate() {
        ids.push(add(&mut db, v, &format!("r{i}")));
    }

    let query = &corpus[123];
    let k = 10;
    let hits = db.search(&unit, query, k, db.n_index_centroids());

    let mut reference: Vec<(u64, f32)> = ids
        .iter()
        .map(|&id| {
            let approx = db.get_approx_vector(id).unwrap();
            (id, num(cosine_sim(&unit, query, &approx)))
        })
        .collect();
    reference.sort_by(|a, b| b.1.partial_cmp(&a.1).unwrap());
    reference.truncate(k);

    assert_eq!(hits.len(), reference.len());
    for (hit, &(ref_id, ref_score)) in hits.iter().zip(reference.iter()) {
        assert_eq!(
            hit.id, ref_id,
            "top-k ordering diverged from decode baseline"
        );
        assert!(
            (num(hit.score) - ref_score).abs() < 1e-4,
            "score diverged beyond tolerance: lut={} decode={}",
            num(hit.score),
            ref_score
        );
    }
}

#[test]
fn duplicate_insert_deduplicates_by_content_hash() {
    let corpus = synthetic_corpus(50, 16, 2);
    let mut db = build(&corpus, 2, 8, 4, 8, 7);
    let id1 = add(&mut db, &corpus[0], "first");
    let id2 = add(&mut db, &corpus[0], "duplicate");
    assert_eq!(id1, id2);
    assert_eq!(db.len(), 1);
    // metadata is not overwritten by the duplicate insert
    assert_eq!(db.get_metadata(id1), Some("first"));
}

#[test]
fn record_arena_validate_accepts_a_freshly_built_arena() {
    let mut arena = RecordArena::new(2);
    arena.insert(0, 42, "hello", &vec![1, 2]);
    arena.insert(1, 7, "world", &vec![3, 4]);
    assert!(arena.validate().is_ok());
}

#[test]
fn record_arena_validate_rejects_an_out_of_bounds_metadata_span() {
    let mut arena = RecordArena::new(2);
    arena.insert(0, 42, "hello", &vec![1, 2]);
    arena.meta_span[0] = (0, 9999);
    assert!(arena.validate().is_err());
}

#[test]
fn record_arena_validate_rejects_invalid_utf8_metadata() {
    let mut arena = RecordArena::new(2);
    arena.insert(0, 42, "hello", &vec![1, 2]);
    let (offset, len) = arena.meta_span[0];
    let start = offset as usize;
    // Same length as the original "hello" span, but not valid UTF-8.
    for b in &mut arena.meta_bytes[start..start + len as usize] {
        *b = 0xFF;
    }
    assert!(arena.validate().is_err());
}

#[test]
fn arenas_say_what_is_wrong() {
    let fresh = || {
        let mut arena = RecordArena::new(2);
        arena.insert(0, 42, "hello", &vec![1, 2]);
        arena
    };
    let complaint = |arena: RecordArena| arena.validate().unwrap_err();
    let mut arena = fresh();
    arena.codes.pop();
    assert_eq!(
        complaint(arena),
        "codes length 31 does not match capacity 16 * code_len 2"
    );
    let mut arena = fresh();
    arena.hash.pop();
    assert_eq!(
        complaint(arena),
        "hash length 15 / meta_span length 16 does not match capacity 16"
    );
    let mut arena = fresh();
    arena.len = 7;
    assert_eq!(complaint(arena), "len 7 does not match 1 live slots");
    let mut arena = fresh();
    arena.meta_span[0] = (1, 9999);
    assert_eq!(
        complaint(arena),
        "id 0: metadata span 1..10000 is out of bounds (meta_bytes len 5)"
    );
    let mut arena = fresh();
    arena.meta_bytes[2] = 0xFF;
    let detail = std::str::from_utf8(&arena.meta_bytes).unwrap_err();
    assert_eq!(
        complaint(arena),
        format!("id 0: metadata bytes are not valid utf8: {detail}")
    );
}

#[test]
fn an_arena_with_slots_enough_stays_as_it_is() {
    let mut arena = RecordArena::new(2);
    arena.insert(0, 42, "hello", &vec![1, 2]);
    arena.insert(1, 43, "gone", &vec![3, 4]);
    arena.remove(1);
    let before = format!("{arena:?}");
    arena.ensure_capacity(16);
    assert_eq!(format!("{arena:?}"), before);
    arena.ensure_capacity(17);
    assert_eq!(arena.capacity(), 32);
    assert_eq!(arena.metadata(0), Some("hello"));
    assert!(arena.validate().is_ok());
}

#[test]
fn arenas_keep_records_apart() {
    let mut arena = RecordArena::new(2);
    arena.insert(5, 42, "h\u{e9}llo", &vec![1, 2]);
    arena.insert(6, 7, "", &vec![3, 4]);
    assert_eq!(arena.ids(), vec![5, 6]);
    assert_eq!(arena.metadata(5), Some("h\u{e9}llo"));
    assert_eq!(arena.metadata(6), Some(""));
    assert_eq!(arena.codes(6), Some(&[3u8, 4][..]));
    assert_eq!(arena.hash(5), Some(42));
    assert!(!arena.is_live(4));
    assert_eq!(arena.metadata(4), None);
    assert_eq!(arena.remove(5), Some(42));
    assert_eq!(arena.remove(5), None);
    assert_eq!(arena.metadata(5), None);
    assert_eq!(arena.len(), 1);
    assert!(!arena.is_empty());
}

#[test]
fn arenas_grow_by_doubling() {
    let mut arena = RecordArena::new(1);
    assert_eq!(arena.capacity(), 0);
    arena.insert(0, 1, "a", &vec![0]);
    assert_eq!(arena.capacity(), 16);
    arena.insert(16, 2, "b", &vec![0]);
    assert_eq!(arena.capacity(), 32);
    arena.insert(100, 3, "c", &vec![0]);
    assert_eq!(arena.capacity(), 101);
}

#[test]
fn words_end_at_any_white_space() {
    for c in (0..=0x10ffffu32).filter_map(char::from_u32) {
        let white = matches!(
            c as u32,
            0x9..=0xd
                | 0x20
                | 0x85
                | 0xa0
                | 0x1680
                | 0x2000..=0x200a
                | 0x2028
                | 0x2029
                | 0x202f
                | 0x205f
                | 0x3000
        );
        let words = lowercase_words(&format!("a{c}b"));
        assert_eq!(words.len(), if white { 2 } else { 1 }, "{:x}", c as u32);
    }
    assert_eq!(lowercase_words("  One\t\u{3000}two \n"), vec!["one", "two"]);
}

#[test]
fn words_are_counted_in_lower_case_and_once() {
    let mut arena = RecordArena::new(1);
    arena.insert(0, 1, "Red  APPLE pie", &vec![0]);
    arena.insert(1, 2, "apple apple apple", &vec![0]);
    arena.insert(2, 3, "pear", &vec![0]);
    let terms = vec!["apple".to_string(), "red".to_string()];
    assert_eq!(arena.lexical_rank(&terms), vec![(0, 2), (1, 1)]);
}

#[test]
fn compression_ratio_is_greater_than_one() {
    let corpus = synthetic_corpus(100, 64, 4);
    let db = build(&corpus, 8, 16, 8, 8, 5);
    assert!(num(db.compression_ratio(&unit)) > 1.0);
    assert_eq!(num(db.compression_ratio(&unit)), 32.0);
}

#[test]
fn merkle_root_changes_as_records_are_inserted() {
    let corpus = synthetic_corpus(20, 16, 5);
    let mut db = build(&corpus, 2, 8, 4, 8, 9);
    let empty_root = db.merkle_root();
    add(&mut db, &corpus[0], "a");
    let after_one = db.merkle_root();
    assert_ne!(empty_root, after_one);
    add(&mut db, &corpus[1], "b");
    let after_two = db.merkle_root();
    assert_ne!(after_one, after_two);
}

#[test]
fn merkle_proof_verifies_every_stored_record() {
    let corpus = synthetic_corpus(30, 16, 6);
    let mut db = build(&corpus, 2, 8, 4, 8, 10);
    let mut ids = Vec::new();
    for (i, v) in corpus.iter().enumerate() {
        ids.push(add(&mut db, v, &format!("r{i}")));
    }
    let root = db.merkle_root();
    for id in ids {
        let proof = db.merkle_proof(id).unwrap();
        assert!(proof.verify(&root));
    }
}

#[test]
fn merkle_proof_rejects_a_tampered_leaf() {
    let corpus = synthetic_corpus(10, 16, 7);
    let mut db = build(&corpus, 2, 8, 4, 8, 12);
    let id = add(&mut db, &corpus[0], "x");
    let root = db.merkle_root();
    let mut proof = db.merkle_proof(id).unwrap();
    proof.leaf_hash[0] ^= 0xFF;
    assert!(!proof.verify(&root));
}

#[test]
fn merkle_proof_is_none_for_unknown_or_removed_id() {
    let corpus = synthetic_corpus(10, 16, 8);
    let mut db = build(&corpus, 2, 8, 4, 8, 13);
    assert!(db.merkle_proof(999).is_none());
    let id = add(&mut db, &corpus[0], "x");
    db.remove(id);
    assert!(db.merkle_proof(id).is_none());
}

#[test]
fn repeated_merkle_calls_without_mutation_are_stable() {
    let corpus = synthetic_corpus(25, 16, 14);
    let mut db = build(&corpus, 2, 8, 4, 8, 15);
    let mut ids = Vec::new();
    for (i, v) in corpus.iter().enumerate() {
        ids.push(add(&mut db, v, &format!("r{i}")));
    }

    let root_a = db.merkle_root();
    db.ensure_merkle_cache();
    let root_b = db.merkle_root();
    assert_eq!(root_a, root_b);

    for &id in &ids {
        let proof_a = db.merkle_proof(id).unwrap();
        let proof_b = db.merkle_proof(id).unwrap();
        assert_eq!(proof_a.leaf_index, proof_b.leaf_index);
        assert_eq!(proof_a.leaf_hash, proof_b.leaf_hash);
        assert_eq!(proof_a.siblings, proof_b.siblings);
        assert!(proof_a.verify(&root_a));
    }
}

#[test]
fn merkle_proof_sees_records_inserted_after_the_cache_was_warmed() {
    let corpus = synthetic_corpus(10, 16, 16);
    let mut db = build(&corpus, 2, 8, 4, 8, 17);
    let first_id = add(&mut db, &corpus[0], "first");

    db.ensure_merkle_cache();
    let _ = db.merkle_root();
    let _ = db.merkle_proof(first_id);

    let second_id = add(&mut db, &corpus[1], "second");
    let root = db.merkle_root();
    let proof = db
        .merkle_proof(second_id)
        .expect("record inserted after cache warm-up should still be provable");
    assert!(proof.verify(&root));
}

#[test]
fn zero_budget_is_unlimited_by_default() {
    let corpus = synthetic_corpus(50, 16, 20);
    let mut db = build(&corpus, 2, 8, 4, 8, 21);
    for v in &corpus {
        add(&mut db, v, "x");
    }
    assert_eq!(db.len(), 50);
}

#[test]
fn oldest_first_eviction_keeps_only_the_newest_records() {
    let corpus = synthetic_corpus(20, 16, 22);
    let mut db = build(&corpus, 2, 8, 4, 8, 23);
    db.set_record_budget(&unit, 5);
    assert_eq!(db.eviction_policy(), EvictionPolicy::OldestFirst);

    let mut ids = Vec::new();
    for v in &corpus {
        ids.push(add(&mut db, v, "x"));
    }
    assert_eq!(db.len(), 5);

    // The 5 highest (newest) ids should be the ones still present.
    let newest: Vec<u64> = ids[ids.len() - 5..].to_vec();
    for id in newest {
        assert!(
            db.get_metadata(id).is_some(),
            "newest record {id} should survive"
        );
    }
    for id in &ids[..ids.len() - 5] {
        assert!(
            db.get_metadata(*id).is_none(),
            "oldest record {id} should be evicted"
        );
    }
}

#[test]
fn set_record_budget_evicts_immediately_when_already_over() {
    let corpus = synthetic_corpus(30, 16, 24);
    let mut db = build(&corpus, 2, 8, 4, 8, 25);
    for v in &corpus {
        add(&mut db, v, "x");
    }
    assert_eq!(db.len(), 30);
    db.set_record_budget(&unit, 10);
    assert_eq!(db.len(), 10);
    assert_eq!(db.record_budget(), 10);
}

#[test]
fn lowest_energy_eviction_prefers_dropping_records_near_their_centroid() {
    let mut rng_seed = 30u64;
    let mut corpus = Vec::new();
    for center in [-5.0f32, 5.0] {
        for _ in 0..10 {
            rng_seed += 1;
            let mut v = vec![center; 16];
            v[0] += (rng_seed as f32 % 7.0) * 0.001; // tiny jitter, stays near centroid
            corpus.push(bits(&v));
        }
    }
    let outlier: Vec<f32> = (0..16)
        .map(|i| if i % 2 == 0 { 50.0 } else { -50.0 })
        .collect();
    corpus.push(bits(&outlier));

    let mut db = build(&corpus, 2, 8, 2, 8, 26);
    db.set_eviction_policy(EvictionPolicy::LowestEnergy);

    let mut ids = Vec::new();
    for v in &corpus {
        ids.push(add(&mut db, v, "x"));
    }
    let outlier_id = *ids.last().unwrap();

    db.set_record_budget(&unit, 5);
    assert_eq!(db.len(), 5);
    assert!(
        db.get_metadata(outlier_id).is_some(),
        "the distinctive outlier should survive low-energy eviction"
    );
}

#[test]
fn search_steered_with_zero_alpha_matches_plain_search() {
    let corpus = synthetic_corpus(100, 16, 40);
    let mut db = build(&corpus, 2, 8, 4, 8, 41);
    for v in &corpus {
        add(&mut db, v, "x");
    }
    let dir = SteeringVector::new(
        &unit,
        bits(&[1.0; 16]),
        0.0f32.to_bits(),
        10.0f32.to_bits(),
    )
    .unwrap();
    let plain = db.search(&unit, &corpus[3], 5, db.n_index_centroids());
    let steered = db.search_steered(&unit, &corpus[3], 5, db.n_index_centroids(), &dir);
    assert_eq!(plain.len(), steered.len());
    for (a, b) in plain.iter().zip(steered.iter()) {
        assert_eq!(a.id, b.id);
        assert_eq!(num(a.score), num(b.score));
    }
}

#[test]
fn search_steered_rejects_dimension_mismatch() {
    let corpus = synthetic_corpus(50, 16, 42);
    let mut db = build(&corpus, 2, 8, 4, 8, 43);
    for v in &corpus {
        add(&mut db, v, "x");
    }
    let wrong_dim_steering =
        SteeringVector::new(&unit, bits(&[1.0, 0.0]), 0.5f32.to_bits(), 1e-4f32.to_bits())
            .unwrap();
    assert!(db
        .search_steered(
            &unit,
            &corpus[0],
            5,
            db.n_index_centroids(),
            &wrong_dim_steering
        )
        .is_empty());
}

#[test]
fn search_steered_toward_a_records_own_direction_raises_its_score() {
    let corpus = synthetic_corpus(200, 32, 50);
    let mut db = build(&corpus, 4, 16, 8, 8, 51);
    let mut ids = Vec::new();
    for (i, v) in corpus.iter().enumerate() {
        ids.push(add(&mut db, v, &format!("r{i}")));
    }

    let target = floats(&db.get_approx_vector(ids[0]).unwrap());
    let norm: f32 = target.iter().map(|x| x * x).sum::<f32>().sqrt();
    let direction: Vec<f32> = target.iter().map(|x| x / norm.max(1e-12)).collect();
    let tol = 1e-3f32.to_bits();
    let baseline =
        SteeringVector::new(&unit, bits(&direction), 0.0f32.to_bits(), tol).unwrap();
    let strong = SteeringVector::new(&unit, bits(&direction), 1.0f32.to_bits(), tol).unwrap();

    let query = &corpus[7];
    let plain = db.search_steered(&unit, query, db.len(), db.n_index_centroids(), &baseline);
    let steered = db.search_steered(&unit, query, db.len(), db.n_index_centroids(), &strong);

    let plain_score = num(plain.iter().find(|h| h.id == ids[0]).unwrap().score);
    let steered_score = num(steered.iter().find(|h| h.id == ids[0]).unwrap().score);
    assert!(
        steered_score > plain_score,
        "steering the query toward record 0's own direction should raise its score \
         ({steered_score} vs {plain_score})"
    );
}

#[test]
fn search_blended_ranks_lexically_unambiguous_but_vector_ambiguous_record_above_plain_search() {
    let dim = 16;
    let mut corpus = Vec::new();
    for center in [-5.0f32, 5.0] {
        for i in 0..8 {
            let mut v = vec![center; dim];
            v[1] += i as f32 * 0.001; // tiny jitter so cluster members aren't identical
            corpus.push(bits(&v));
        }
    }
    let ambiguous: Vec<f32> = (0..dim)
        .map(|i| if i % 2 == 0 { 3.0 } else { -3.0 })
        .collect();
    corpus.push(bits(&ambiguous));

    let mut db = build(&corpus, 2, 8, 4, 8, 100);
    let mut ids = Vec::new();
    for (i, v) in corpus.iter().enumerate() {
        let metadata = if i == corpus.len() - 1 {
            "widget catalog".to_string()
        } else {
            format!("record-{i}")
        };
        ids.push(add(&mut db, v, &metadata));
    }
    let ambiguous_id = *ids.last().unwrap();

    let query = bits(&vec![-5.0f32; dim]);
    let query_terms = vec!["widget", "catalog"];
    let nprobe = db.n_index_centroids();

    let plain = db.search(&unit, &query, 5, nprobe);
    assert_ne!(
        plain[0].id, ambiguous_id,
        "plain vector search shouldn't favor the vector-ambiguous record"
    );

    let blended = db.search_blended(&unit, &query_terms, &query, 5, nprobe);
    assert_eq!(
        blended[0].id, ambiguous_id,
        "an unambiguous lexical match should win the fused ranking"
    );
}

#[test]
fn search_blended_with_no_query_terms_matches_plain_vector_search() {
    let corpus = synthetic_corpus(120, 16, 200);
    let mut db = build(&corpus, 2, 8, 4, 8, 201);
    for v in &corpus {
        add(&mut db, v, "x");
    }
    let query = &corpus[5];
    let nprobe = db.n_index_centroids();

    let plain = db.search(&unit, query, 5, nprobe);
    let blended = db.search_blended(&unit, &vec![], query, 5, nprobe);

    assert_eq!(plain.len(), blended.len());
    for (a, b) in plain.iter().zip(blended.iter()) {
        assert_eq!(a.id, b.id);
        assert_eq!(a.score, b.score);
        assert_eq!(a.metadata, b.metadata);
    }
}

#[test]
fn search_blended_rejects_dimension_mismatch() {
    let corpus = synthetic_corpus(50, 16, 300);
    let mut db = build(&corpus, 2, 8, 4, 8, 301);
    for v in &corpus {
        add(&mut db, v, "x");
    }
    let wrong_dim_query = bits(&vec![0.0f32; 8]);
    assert!(db
        .search_blended(&unit, &vec!["x"], &wrong_dim_query, 5, db.n_index_centroids())
        .is_empty());
}

#[test]
fn build_viable_graph_restricts_to_the_predicate_and_walks_stay_inside_it() {
    let corpus = synthetic_corpus(120, 8, 60);
    let mut db = build(&corpus, 4, 16, 8, 8, 61);
    let mut ids = Vec::new();
    for (i, v) in corpus.iter().enumerate() {
        ids.push(add(&mut db, v, &format!("r{i}")));
    }

    let graph = db.build_viable_graph(&unit, &|v: &[u32]| num(v[0]) > 0.0, 4, false);
    let expected = ids
        .iter()
        .filter(|&&id| num(db.get_approx_vector(id).unwrap()[0]) > 0.0)
        .count();
    assert_eq!(graph.n_nodes(), expected);

    for &id in &ids {
        let positive = num(db.get_approx_vector(id).unwrap()[0]) > 0.0;
        assert_eq!(graph.contains(id), positive);
    }

    let start = *ids.iter().find(|&&id| graph.contains(id)).unwrap();
    let walk = graph.random_walk(start, 10, 7);
    assert_eq!(walk.len(), 11);
    for id in walk {
        assert!(num(db.get_approx_vector(id).unwrap()[0]) > 0.0);
    }
}

#[test]
fn build_region_tree_covers_every_stored_record() {
    let corpus = synthetic_corpus(60, 16, 90);
    let mut db = build(&corpus, 4, 16, 8, 8, 91);
    let mut ids = Vec::new();
    for (i, v) in corpus.iter().enumerate() {
        ids.push(add(&mut db, v, &format!("r{i}")));
    }

    let tree = db.build_region_tree(&unit, &signed(), RegionTreeConfig::default());
    assert_eq!(tree.num_arms(), db.len());
    for &id in &ids {
        assert!(tree.leaf_belief(id).is_some());
    }

    let arm = tree.sample(&unit, &fractions(), 1);
    assert!(ids.contains(&arm));
}

#[test]
fn insert_refuses_other_dimensions() {
    let corpus = synthetic_corpus(20, 16, 1);
    let mut db = build(&corpus, 2, 8, 4, 8, 1);
    let err = db.insert(&unit, &bits(&[1.0; 3]), "x".to_string()).unwrap_err();
    assert!(matches!(
        err,
        LatentDbError::DimMismatch {
            expected: 16,
            got: 3
        }
    ));
    assert!(db.is_empty());
    assert!(db.search(&unit, &bits(&[1.0; 3]), 5, 4).is_empty());
}

#[test]
fn removed_records_are_gone_and_can_come_back() {
    let corpus = synthetic_corpus(20, 16, 1);
    let mut db = build(&corpus, 2, 8, 4, 8, 1);
    let a = add(&mut db, &corpus[0], "a");
    let b = add(&mut db, &corpus[1], "b");
    db.remove(a);
    db.remove(999);
    assert_eq!(db.len(), 1);
    assert_eq!(db.get_metadata(a), None);
    assert_eq!(db.get_approx_vector(a), None);
    assert_eq!(db.get_metadata(b), Some("b"));
    let again = add(&mut db, &corpus[0], "again");
    assert_eq!(again, 2);
    assert_eq!(db.get_metadata(again), Some("again"));
}

#[test]
fn stored_vectors_are_decoded_from_their_codes() {
    let corpus = synthetic_corpus(20, 16, 1);
    let mut db = build(&corpus, 2, 8, 4, 8, 1);
    let id = add(&mut db, &corpus[4], "x");
    let want = db.pq.decode(&db.pq.encode(&unit, &corpus[4]));
    assert_eq!(db.get_approx_vector(id), Some(want));
}

#[test]
fn an_exhaustive_search_ranks_every_record() {
    let corpus = synthetic_corpus(40, 16, 3);
    let mut db = build(&corpus, 2, 8, 4, 8, 1);
    for v in &corpus {
        add(&mut db, v, "x");
    }
    let hits = db.search(&unit, &corpus[0], 100, db.n_index_centroids());
    assert_eq!(hits.len(), 40);
    for w in hits.windows(2) {
        assert!(num(w[0].score) >= num(w[1].score));
    }
    let mut ids: Vec<u64> = hits.iter().map(|h| h.id).collect();
    ids.sort_unstable();
    assert_eq!(ids, (0..40).collect::<Vec<u64>>());
}

#[test]
fn a_small_database_has_room() {
    let corpus = synthetic_corpus(20, 16, 3);
    let db = build(&corpus, 2, 8, 4, 8, 1);
    assert!(db.can_store(&corpus[0], "x"));
    let mut arena = RecordArena::new(2);
    assert!(arena.can_hold(0, 10));
    assert!(!arena.can_hold(0, u32::MAX as usize + 1));
    assert!(!arena.can_hold(u64::MAX, 10));
    arena.insert(0, 1, "hello", &vec![1, 2]);
    assert!(arena.can_hold(1, u32::MAX as usize - 5));
    assert!(!arena.can_hold(1, u32::MAX as usize - 4));
}

#[test]
fn lowest_energies_leave_first() {
    // Two records sit on their centroids, the third does not.
    let corpus = vec![
        bits(&[0.0, 0.0]),
        bits(&[0.0, 0.0]),
        bits(&[10.0, 0.0]),
    ];
    let mut db = build(&corpus, 1, 3, 1, 2, 5);
    db.set_eviction_policy(EvictionPolicy::LowestEnergy);
    assert_eq!(db.eviction_policy(), EvictionPolicy::LowestEnergy);
    let near = add(&mut db, &corpus[0], "near");
    let far = add(&mut db, &corpus[2], "far");
    db.set_record_budget(&unit, 1);
    assert_eq!(db.get_metadata(near), None);
    assert_eq!(db.get_metadata(far), Some("far"));
}

#[test]
fn blended_scores_add_the_weights_of_both_ranks() {
    let corpus = synthetic_corpus(20, 16, 3);
    let mut db = build(&corpus, 2, 8, 4, 8, 1);
    let a = add(&mut db, &corpus[0], "Alpha common");
    add(&mut db, &corpus[1], "common");
    let hits = db.search_blended(
        &unit,
        &vec!["ALPHA", "common"],
        &corpus[0],
        2,
        db.n_index_centroids(),
    );
    assert_eq!(hits[0].id, a);
    let want = 1.0f32 / 61.0 + 1.0f32 / 61.0;
    assert!((num(hits[0].score) - want).abs() < 1e-7);
    let want = 1.0f32 / 62.0 + 1.0f32 / 62.0;
    assert!((num(hits[1].score) - want).abs() < 1e-7);
}

#[test]
fn proofs_are_of_the_record_as_it_is_stored() {
    let corpus = synthetic_corpus(20, 16, 3);
    let mut db = build(&corpus, 2, 8, 4, 8, 1);
    let mut other = build(&corpus, 2, 8, 4, 8, 1);
    let id = add(&mut db, &corpus[0], "one");
    add(&mut other, &corpus[0], "two");
    assert_ne!(db.merkle_root(), other.merkle_root());
    let proof = db.merkle_proof(id).unwrap();
    assert!(!proof.verify(&other.merkle_root()));
}

#[test]
fn restored_databases_answer_as_before() {
    let corpus = synthetic_corpus(80, 16, 3);
    let mut db = build(&corpus, 2, 8, 4, 8, 11);
    for (i, v) in corpus.iter().enumerate() {
        add(&mut db, v, &format!("r{i}"));
    }
    db.remove(7);
    let root_before = db.merkle_root();
    let hits_before = db.search(&unit, &corpus[3], 5, 4);
    assert!(db.validate_after_deserialize().is_ok());
    let restored = restored(db).unwrap();
    assert!(restored.is_sound());
    assert_eq!(restored.len(), 79);
    assert_eq!(restored.get_metadata(0), Some("r0"));
    assert_eq!(restored.merkle_root(), root_before);
    let hits_after = restored.search(&unit, &corpus[3], 5, 4);
    assert_eq!(hits_before.len(), hits_after.len());
    for (a, b) in hits_before.iter().zip(hits_after.iter()) {
        assert_eq!(a.id, b.id);
        assert_eq!(a.score, b.score);
    }
}

#[test]
fn corrupted_arenas_are_not_restored() {
    let corpus = synthetic_corpus(20, 16, 500);
    let mut db = build(&corpus, 2, 8, 4, 8, 501);
    for v in &corpus {
        add(&mut db, v, "x");
    }
    db.records.meta_span[0] = (0, u32::MAX);
    let message = match db.validate_after_deserialize() {
        Err(LatentDbError::Serialize(message)) => message,
        other => panic!("{other:?}"),
    };
    assert_eq!(
        message,
        "id 0: metadata span 0..4294967295 is out of bounds (meta_bytes len 20)"
    );
    assert!(matches!(restored(db), Err(LatentDbError::Serialize(m)) if m == message));
}

#[test]
fn parts_that_do_not_fit_are_found() {
    let corpus = synthetic_corpus(20, 16, 500);
    let filled = || {
        let mut db = build(&corpus, 2, 8, 4, 8, 501);
        for v in &corpus {
            add(&mut db, v, "x");
        }
        db
    };
    assert!(filled().is_sound());
    let spoilt: Vec<fn(&mut LatentDb)> = vec![
        |db| db.dim = 15,
        |db| db.next_id = 3,
        |db| db.index.buckets[0].clear(),
        |db| db.index.buckets.push(Vec::new()),
        |db| {
            db.index.assignment.remove(&0);
        },
        |db| {
            db.index.assignment.insert(99, 0);
        },
        |db| {
            db.hash_to_id.insert(1, 2);
        },
        |db| db.hash_to_id.clear(),
        |db| db.records.codes[0] = 200,
        |db| db.projector.out_dim = 7,
    ];
    for spoil in spoilt {
        let mut db = filled();
        spoil(&mut db);
        // The records themselves are in order, so that reading them back works.
        let db = restored(db).unwrap();
        assert!(!db.is_sound());
    }
}

#[test]
fn searches_need_no_content_hashes() {
    let corpus = synthetic_corpus(20, 16, 500);
    let mut db = build(&corpus, 2, 8, 4, 8, 501);
    for v in &corpus {
        add(&mut db, v, "x");
    }
    let before = db.search(&unit, &corpus[3], 5, 4);
    db.hash_to_id.clear();
    db.next_id = 0;
    let db = restored(db).unwrap();
    assert!(!db.is_sound());
    assert!(db.is_answerable());
    let after = db.search(&unit, &corpus[3], 5, 4);
    assert_eq!(before.len(), after.len());
    for (a, b) in before.iter().zip(after.iter()) {
        assert_eq!((a.id, a.score), (b.id, b.score));
    }
}

#[test]
fn what_a_search_rests_on_is_checked() {
    let corpus = synthetic_corpus(20, 16, 500);
    let spoilt: Vec<fn(&mut LatentDb)> = vec![
        |db| db.index.buckets[0].push(99),
        |db| {
            db.index.assignment.insert(99, 0);
        },
        |db| db.records.codes[0] = 200,
        |db| db.projector.out_dim = 7,
    ];
    for spoil in spoilt {
        let mut db = build(&corpus, 2, 8, 4, 8, 501);
        for v in &corpus {
            add(&mut db, v, "x");
        }
        assert!(db.is_answerable());
        spoil(&mut db);
        assert!(!db.is_answerable());
    }
}

#[test]
fn a_full_arena_still_knows_what_it_has() {
    let corpus = synthetic_corpus(20, 16, 3);
    let mut db = build(&corpus, 2, 8, 4, 8, 1);
    let id = add(&mut db, &corpus[0], "x");
    db.next_id = u64::MAX;
    assert!(!db.can_store(&corpus[1], "y"));
    assert!(db.can_store(&corpus[0], "y"));
    assert!(db.can_store(&corpus[0][1..], "y"));
    assert_eq!(add(&mut db, &corpus[0], "y"), id);
}

#[test]
fn ids_are_never_given_out_twice() {
    let corpus = synthetic_corpus(20, 16, 3);
    let mut db = build(&corpus, 2, 8, 4, 8, 1);
    let mut last = add(&mut db, &corpus[0], "x");
    db.remove(last);
    db.set_record_budget(&unit, 2);
    for v in &corpus[1..] {
        let id = add(&mut db, v, "x");
        assert!(id > last);
        last = id;
    }
    assert_eq!(db.len(), 2);
}
