# rbe26

A fraud-scoring service: a transaction is turned into a 14-dimensional
vector, and its score is the share of fraudulent labels among its five
nearest neighbours in a reference set.

`src/` is the verified library (Verus):

- `buckets` — the bucket key of a quantised vector, its decoding, and the
  proofs that encoding and decoding invert each other.
- `calendar` — timestamp reading, decimal fields, and the civil-date day
  count, proved equal to the Gregorian calendar's.
- `compact` — reading a whole vector file (header, size, partition
  offsets, block records, vectors, residuals, labels), the preprocessor's
  sorting of records into buckets, and the bytes it writes.
- `index` — the block index: partition boxes and the list of non-empty
  partitions.
- `distance`, `kbest`, `search` — the branch-and-bound search: under sound
  block boxes it finds the six nearest vectors by coarse distance, then
  re-ranks them by fine distance, the earlier candidate first on equal
  distances; with disjoint blocks no vector is picked twice.
- `sorting` — sorting by an integer key.
- `balancer` — the order in which the load balancer tries its upstreams.

`app/` holds what Verus does not check: the HTTP server, the load balancer's
sockets, the preprocessor's decompression and JSON, file reading, and the
floating-point vectorisation and quantisation.

`tests/` runs the library on concrete values.
