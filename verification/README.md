# vexra

An embedded, single-file vector database, with its core verified by Verus.

`src/` is the verified library:

- `bytes`, `encoding` — little-endian integers in byte buffers.
- `crc` — the CRC-32 used by headers and log frames (crc32fast).
- `format` — the database header, page headers, cell pointers and cells
  on a page.
- `wal` — the write-ahead log: header and frame bytes, the scan that reads
  frames back, replay, the log's counters, and the recovery decision.
- `page_cache` — cached pages: reading and writing cells, the page table
  and its eviction rule.
- `cells` — vector, metadata and tombstone cells, and what loading a
  collection keeps.
- `config`, `error` — configuration, statistics and error types.
- `hnsw`, `hnsw_search` — the HNSW link structure: nodes and neighbor
  lists, beam search, neighbor selection, insertion and removal. Distances
  come from an oracle as integer keys ordered like the distances.
- `flat` — the flat index over packed vectors.
- `ranking` — lists kept sorted by key, the stable sort, recall counts.
- `filter` — the metadata filter language, parsed into a tree.
- `embed` — the hashing half of the simple text embedder.
- `text` — shortening text for display.

`app/` holds what the core leaves out: files and locks, floating-point
distances and weights, JSON metadata and its filter evaluation, the
collection and database objects, the command line, the HTTP API, full-text
search (tantivy), and a C ABI.
