# vector_experiments

Experiments over embedding vectors: compact codes for vectors and how well they
rank, and clusterings of large collections.

The library in `src/` is verified with Verus. It holds the record layouts and
bit packing, the blocked and transposed layouts, the searches over them, the
clustering steps and the reports. Floating-point numbers pass through it as bit
patterns, as keys that are ordered as the numbers are, or behind functions that
the caller gives.

- `src/quantization`: codes, records, batches and their scoring.
- `src/kmeans`: balanced bisection, flat clustering with pruning, recall.
- `src/dataset.rs`, `src/experiment.rs`, `src/metrics.rs`: data sets, tables,
  rankings.
- `tests`: the library on concrete values.
- `app`: the command line, file access and floating-point kernels.
