//! A small embeddable database for vector embeddings that keeps every record
//! compressed.
//!
//! - [`db`]: the database. A record is stored as a few code bytes
//!   ([`pq`], [`arena`]), indexed by its nearest centroid ([`index`]) under a
//!   random projection ([`projector`]), searched approximately, committed to
//!   by a Merkle tree ([`merkle`]).
//! - [`superpose`]: many pairs of vectors packed into one.
//! - [`manifold`]: graphs over the records that satisfy a predicate: shortest
//!   paths, random walks, classes of nodes that look alike. [`trajectory`]
//!   measures paths in them.
//! - [`steering`]: directions that shift a query, with commitments.
//! - [`bandit`]: a tree of regions over the records, sampled and rewarded.
//! - [`embedded`]: vectors and nodes of fixed size.
//!
//! Numbers are single-precision bit patterns in `u32`. The crate compares them
//! itself ([`order`]) and is handed the arithmetic ([`arith`]), so that every
//! result is stated exactly, down to the order of the operations.

pub mod allocations;
pub mod arena;
pub mod arith;
pub mod bandit;
pub mod bytes;
pub mod cli;
pub mod clustering;
pub mod db;
pub mod embedded;
pub mod index;
pub mod laws;
pub mod manifold;
pub mod merkle;
pub mod order;
pub mod pq;
pub mod predicate;
pub mod projector;
pub mod random;
pub mod simd;
pub mod sorting;
pub mod steering;
pub mod superpose;
pub mod text;
pub mod trajectory;
pub mod vectors;
pub mod wasm;

pub use db::queries::SearchHit;
pub use db::EvictionPolicy;
pub use db::LatentDb;
pub use db::LatentDbError;
pub use index::CentroidIndex;
pub use manifold::classes::BoundaryClassId;
pub use manifold::classes::BoundaryClasses;
pub use manifold::graph::ViableGraph;
pub use manifold::wiring::build_viable_graph;
pub use merkle::Digest;
pub use merkle::MerkleProof;
pub use merkle::MerkleTree;
pub use pq::PqCodec;
pub use pq::QueryLut;
pub use projector::Projector;
pub use steering::SteeringEnvelope;
pub use steering::SteeringError;
pub use steering::SteeringVector;
pub use superpose::circular_convolve;
pub use superpose::circular_correlate;
pub use superpose::cosine_sim;
pub use superpose::SuperposedSlot;
