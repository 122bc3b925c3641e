# fraud_index

Scores card transactions by how many of the nearest known transactions were
fraud.

`src/` is a library in Verus. Every function states what it returns, and the
statements are proved. Four calls are not proved but trusted to do what is said
of them where they stand: `memchr::memmem::find` (`event_loop::find`), reading a
`flate2::read::GzDecoder` (`loader`), `select_nth_unstable_by_key` of a slice
(`tree::grow`) and `std::hint::black_box` (`tree::index`).

- `tree`: an exact index, a tree over quantised vectors in eight partitions.
  This is what the server asks.
- `ivf`: an approximate index, buckets around centroids.
- `hnsw`: an approximate index, a graph with layers.
- `knn`: votes of neighbours that a search tree found.
- `nearest`, `top`, `distance`: what "nearest" means, and keeping the nearest.
- `bytes`, `bvecs`: the bytes that files are made of.
- `input`: reading a request; `input::sheet` says how requests are written, that
  what is written is read, and that it is refused where something is missing.
- `normalizer`: the features of a request; `calendar` says that timestamps are
  ordered as they are written.
- `score`: from the body of a request to its score.
- `server`, `event_loop`: what is answered, when, and what happens to a
  connection in between.
- `balance`, `health`, `loader`: what the acceptor, the health check and the
  indexer decide.

Floating point stays outside the library. Where it is needed in the middle of
something (a mean, a distance, a level, a number in a request, quantising its
features), the caller hands in a function.

`app/` holds the programs: server, acceptor, health check and indexer, chosen by
the first argument.
