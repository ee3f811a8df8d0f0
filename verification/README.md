# bmp

A forward index for block-max pruning, verified with Verus.

Documents are lists of terms with scores. They are grouped into blocks; each
block lists its terms, and each term keeps its postings either sparsely, as pairs
of a place in the block and a score, or densely, as one score for each place. A
query is scored against a whole block at once.

- `src/index/forward_index.rs`: the types, the builder, the grouping into blocks,
  and `block_score`.
- `src/index/blocks.rs`: turning the documents of one block into its terms and
  postings, and doing so for all blocks in parallel.
- `src/index/dense_ratio.rs`: the share of a block above which a term is stored
  densely, and the threshold that follows from it.
- `src/index/keyed.rs`, `src/index/narrow.rs`: ordering by key, and cutting
  integers to their low bits.
- `src/index/model.rs`: what the contracts speak of.
- `src/index/laws.rs`: what holds of the index as a whole; above all, that a
  document's score is the inner product of the query with the document.
- `src/bench_doc.rs`, `src/random.rs`: random blocks on which the scoring is timed,
  and the seeded generator that they are drawn from.
- `app/`: the stored form of the types, a progress bar, the search command and
  the benchmark.
