# Proxima

A vector database / nearest-neighbor search engine, written in Verus: the
index logic is proved against its specification.

## Layout

- `src/` — the verified library (crate `proxima`).
  - `vector.rs` — `Vector<T>`, an owned dense embedding.
  - `metric.rs` — the `L2` and `Cosine` metric markers (their float
    arithmetic is in `app/metric.rs`) and the integer order key of a
    single-precision distance (`distance_key` / `distance_bits`), proved to
    order keys as the floats are ordered and to be a bijection.
  - `neighbor.rs` — exact k-nearest selection: `NearestBuffer`, a streaming
    top-k that keeps only `k` candidates, and `nearest_k` over a batch, proved
    to return the first `k` candidates in (distance, scan order), nearest first.
  - `brute_force.rs` — `BruteForceIndex`, the exact (flat) kNN index: insert,
    remove, update, get, iterate, the dimension check and search (streaming,
    O(k) memory), with read-after-write and id laws.
  - `nsw.rs` — `NswIndex`, the single-layer navigable small-world graph, proved
    complete and undirected.
  - `graph.rs` — the undirected k-NN edge set and its connected components
    (union-find), proved to label two nodes alike exactly when a walk joins them.
  - `controls.rs` — the interactive visualizer's input handling as a state
    machine.
- `tests/` — tests of the library.
- `app/` — the interactive visualizer (macroquad): input polling, geometry,
  physics, drawing and the floating-point distance arithmetic.

The library holds no floating-point values: a caller computes each distance as
an `f32` and hands the index its order key, so "closer" is integer `<`.
