# a3s_vec

The verified core of an in-process vector and full-text search library.
Every function under `src/` carries a `requires`/`ensures` contract that
Verus proves; the few calls into `roaring`, `im` and `crc32fast` go through
small trusted wrappers whose contracts are stated beside them.

## Layout

- `src/index/`: the index layer.
  - `ordinal_map.rs`, `ordinals.rs`: direct-address maps and the id/ordinal
    table with its live set and membership changes.
  - `vector.rs`: one generation of a vector index (shared base, delta,
    tombstones) and how changes shadow the base.
  - `hnsw.rs`, `ivf.rs`, `vamana.rs`, `diskann_index.rs`, `rabitq*.rs`,
    `product_quantization.rs`, `flat.rs`: the structural checks and
    integer logic of each index kind; `params.rs` checks a cached index
    against its parameters.
  - `fts/`: posting lists, term dictionary, document lengths, trigram
    pruning and boolean expression candidates.
  - `scalar.rs`, `scalar_filter.rs`: wildcard matching and scalar filter
    evaluation over value bitmaps.
  - `plan.rs`: the candidate planner's decisions.
  - `diskann/`, `cache.rs`: the DiskANN sidecar format and the framed
    index cache.
- `tests/`: tests run against the compiled library.
- `app/`: the edge that Verus does not check: file reads and writes, JSON
  conversion, and the floating-point work (quantization, distances,
  product-quantizer encoding).

Laws that relate several functions are public `proof fn`s named `law_*`.
