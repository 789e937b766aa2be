# OctaSoma

OctaSoma is a semantic memory. Embeddings are projected to points in space, filed in an
octree, and recalled by exact nearest-neighbour search; a precise layer ranks by cosine, and
a record layer keeps scope, sensitivity, retention and lineage of what is remembered.

The library under `src/` is written in Verus. Every function has a contract, and the laws
that span functions are proof functions whose names begin with `law_`. Numbers with a
fraction are held as bit patterns or as keys that order like them; what computes with them
stands in `app/`.

| Modules | What they hold |
| --- | --- |
| `octree`, `fractal`, `knn`, `search`, `memory`, `explain`, `frac` | the spatial memory, its exact search, its views and its file format |
| `record`, `record_codec`, `record_store` | memory records, their lifecycle, and their file format |
| `truncation`, `rejection` | what the readers make of cut, longer and broken bytes |
| `hybrid`, `layers`, `sharded`, `shards`, `manifest` | memories of many regions, filtered and related recall, compaction |
| `generation`, `generation_store`, `generation_fingerprint` | published generations and how one is opened |
| `fileguard`, `digest`, `error`, `text`, `order`, `rng`, `totals` | what the others share |
| `json`, `replies`, `dialogue` | JSON texts, and the requests and answers of the two servers |
| `mcp`, `server`, `session`, `tools`, `lifecycle` | the memory server: limits, tools, sessions |
| `scope`, `corpus` | the cascade over causal scopes, and the corpus server |
| `kernel`, `feedback`, `conformal`, `metrics` | the agent kernel, labels and their evaluation |
| `embed`, `gemm`, `clustered`, `cli` | embedders, the plan of a matrix product, clusters, the command line |

`app/` holds the programs: the command line, the two servers, and the floating-point engine.
`tests/` runs the library.

A causal scope over a `ccos` memory (`CcosScope`) and the view of `scirust` cache tiles
(`kv_cache_view`) are not part of it: both only adapt types of those crates, which are no
dependencies here.
