# rustfst

Weighted finite-state transducers, with proofs in Verus: determinization of acceptors and
transducers, lazy machines and their caches, pruning, trimming, the table of state pairs of a
composition that can move to scratch storage, and symbol tables in their binary form.

## Layout

- `src/fst` holds machines, transitions, their properties and symbol tables.
- `src/semirings` holds the weights: costs with the smaller one as sum, and weights that carry
  strings of labels. `laws.rs`, `series.rs` and `gallic_laws.rs` hold the algebra behind them,
  `path_weights.rs` the order of weights of which one is always the better, and `rounding.rs` how far
  rounding moves weights.
- `src/lazy` holds machines that compute their states when they are asked for, and the caches they
  remember them in. `laws.rs`, `failure_laws.rs` and `steady_laws.rs` say what is written out of one,
  and when that fails.
- `src/determinize` holds determinization. What it keeps of a machine is stated in `laws.rs`,
  `transducer_laws.rs`, `disambiguation_laws.rs`, `distance_laws.rs`, `limit_laws.rs` and
  `static_laws.rs`; what is left of it when weights are rounded, in `rounding_laws.rs` and
  `disambiguation_rounding.rs`.
- `src/weight_convert.rs` and `src/factor_weight.rs` move outputs into weights and back.
- `src/compose` holds the table of state pairs. It never touches a file: it says what is to be done
  on scratch storage and is told how it went. `disk_laws.rs`, `store_laws.rs` and
  `request_laws.rs` say what comes of it on storage that works, and on storage that fails.
- `src/prune.rs`, `src/shortest_distance.rs`, `src/connect.rs` and `src/paths.rs` hold pruning and
  what it is made of; `src/prune_laws.rs` says which paths are left, `src/reprune_laws.rs` what
  pruning once more does, `src/prune_flag_laws.rs` what becomes of the properties, and
  `src/settle_laws.rs` why tropical distances settle.
- `src/parsers` holds the binary form of symbol tables.
- `app` surrounds the library: files, error traits, and the C interface.

Costs are whole numbers of ticks, 1024 to the unit. Sums and products that do not fit are errors.

## What is taken on trust

Six calls into the standard library are behind wrappers that Verus does not look into:
`u16::from_ne_bytes` in `src/fx_hasher.rs`; the capacity and the reservation of a hash table and of
a list in `src/compose/memory_store.rs`; and `String::from_utf8` in `src/parsers/bin_symt.rs`.
