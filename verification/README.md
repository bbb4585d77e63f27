# latent-db

A small embeddable database for vector embeddings. Every record is kept
compressed: a few code bytes instead of its vector, found again through a
centroid index, and committed to by a Merkle tree.

The library under `src/` is verified with Verus: every function states what it
returns, and the statements are proved. `app/` holds the command line, the HTTP
server and the browser surface, which are ordinary Rust.

## Numbers

The library holds single-precision numbers as bit patterns in `u32`. It compares
them itself (`order`), and is handed the arithmetic (`arith`): one function that
adds, multiplies, takes roots and so on. What is built from that, from dot
products to clustering and shortest paths, is stated in terms of those
operations, in the order in which they are performed. Random numbers that are
not whole are handed in the same way; whole ones come from the `rand` crate
(`random`).

## Modules

| Module | What it holds |
|---|---|
| `db` | The database: insertion, removal, budgets and eviction, search, commitments, restoring a stored database |
| `arena` | Records in flat arrays, and the check of arrays that were read from elsewhere |
| `pq`, `clustering` | Product quantization and the k-means behind it |
| `projector`, `index` | Random projections with commitments, and the centroid index |
| `merkle` | Merkle trees and inclusion proofs over BLAKE3 |
| `manifold`, `trajectory` | Graphs over records that satisfy a predicate: shortest paths, random walks, structural classes, measures of paths |
| `steering` | Committed directions that shift a query |
| `bandit` | Trees of regions, sampled and rewarded |
| `superpose`, `simd`, `vectors` | Vector arithmetic |
| `embedded` | Vectors and graph nodes of fixed size |
| `wasm`, `cli`, `allocations` | What the browser surface, the command line and the counting allocator compute |
| `order`, `arith`, `bytes`, `sorting`, `text`, `random`, `predicate` | What the others rest on |

Functions that wrap an outside function say so in their comments: BLAKE3 in
`merkle`, the generator of `rand` in `random`, and three text functions of the
standard library in `text`.
