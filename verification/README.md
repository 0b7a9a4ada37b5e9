# otmp

A runtime for tables whose metadata lives in an object store, without a catalog
service. One small object, the head, names the current state of a table. It is
replaced conditionally, and everything that it names is immutable: a semantic
commit that says what changed, and a generation that says where the metadata
image is. The image is a SQLite database of 4 KiB pages. A new version of it is
published as packs of changed pages under a page map, or as a whole checkpoint.

The library under `src/` holds the rules of the runtime. It is written in Verus:
every function has a contract that Verus proves, and the laws that connect the
functions are proved next to them. The files under `app/` are ordinary Rust: they
read and write objects, run the SQL engines, and carry out what the library
decides.

## Layout

| Modules | What they hold |
| --- | --- |
| `hash`, `bytes`, `text`, `value`, `cells`, `error` | plain values, texts, row values, and errors |
| `storage`, `local_store` | object versions, ranges, an in-memory store, the rules of a local one |
| `documents`, `pin`, `history`, `selection`, `selection_walk`, `verification` | heads, generations and commits, checked against each other, walked back and verified |
| `page_map`, `physical`, `checkpoint_index`, `resolve` | page maps, packs and checkpoints: written, and put together again |
| `authenticated`, `page_read`, `page_walk`, `single_page`, `cache`, `reader_options` | single pages of an image, verified and cached within a budget |
| `cow_writer` | the overlay that a candidate image is written on |
| `schema`, `schema_rows`, `stored_schema`, `genesis` | schemas, their rows, and the first image of a table |
| `tables`, `image`, `projection`, `replay` | the rows of an image, what makes them valid, and what a commit makes of them |
| `catalog`, `catalog_rows`, `transactions`, `changed_rows` | requirements and operations of a transaction, their effects, and the rows that they leave |
| `append`, `append_image`, `append_rows`, `intent`, `candidate` | appends, and the documents of a new version |
| `round_trip`, `repeated_append`, `valid_append`, `valid_transaction` | laws on what an append or a transaction leaves behind |
| `publication`, `initialize`, `rebase` | which step follows which outcome when a head is made or replaced, and whether an append still stands |
| `reader_engine`, `reader_engine_pages` | budgets of the reader's engine, and the pages that it may follow |
| `reader_meta`, `reader_rows`, `reader_schema`, `ranges`, `queries`, `listing` | what the reader makes of rows, and how it asks for them |
| `write_latency_qualification` | measured phases of a write, and the rules of a measurement |

The byte formats of the protocol (canonical JSON, page packs, page maps and index
nodes) come in through codec traits. `app/protocol.rs` gathers what the runtime
asks of them.

## What is trusted

Six small functions call other crates or `std`, and their contracts are not
proved: SHA-256 (`sha2`), hexadecimal text (`hex`), fresh identifiers (`uuid`),
decompression with and without a window limit (`zstd`), and sharing of an `Arc`.
Each names the function that it calls.
