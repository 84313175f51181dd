# exact_hnsw

Builds layered proximity graphs (HNSW) from exact neighbour tables, and routes the
assignment of vectors to partitions. The library under `src/` is written in Verus:
functions state what they return in their contracts, and the contracts are proved, but
for those of the few that make a call outside.

## Layout

| Module | What it holds |
| --- | --- |
| `single` | Single-precision numbers as bit patterns: comparison, total order, `1 - x` correctly rounded |
| `lanes`, `heap`, `arrival`, `top_k`, `offer_order`, `scan` | Masks, min-heaps, the order candidates arrive in and how little it decides, and the scans that fold a scored block into every node's top-k |
| `knn`, `exact_knn` | The exact neighbour table and the blocked walk of the distance matrix that makes it |
| `graph`, `exact_build`, `invariants` | The graph, its construction level by level, and what holds of every built graph |
| `assignment`, `simple_index` | The route of centroid assignment, its settings, and the index over centroids |
| `array`, `element`, `tensor`, `finite` | Arrow arrays, tensors and finite vectors |
| `order`, `text`, `error`, `distance`, `parallel` | Sorting, messages, errors, distances, the thread pool |

The scoring kernel, the neighbour selection, the level assignment and the graph over
centroids are parameters. What the contracts claim without proof stands in `array`, of
`arrow`; in `parallel`, of `rayon`; and, of the standard library, in `parse_number` of
`assignment` and `share` of `exact_build`. Of the text of an error of `arrow` nothing
is claimed.

`app/` wires the library to a host: environment settings, log lines, protobuf
messages and the host's kernel and graph.
