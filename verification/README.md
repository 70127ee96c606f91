# wal_decoder

Decoding of PostgreSQL write-ahead log into what a page server stores, written
in Rust and verified with Verus.

- `src/orioledb_state` keeps the cold-start summary of the OrioleDB engine: it
  reads container records (`container`), accumulates them (`summary`), and packs
  the summary into bytes that a compute node reads (`packed`).
- `src/serialized_batch` holds values in batches that are ready to be written:
  it builds them from values and from decoded records (`decoded`), merges them,
  and fills gaps in relations with zero pages (`gaps`). `laws` states what holds
  across these operations.
- `src/value`, `src/key`, `src/lsn` and `src/postgres` are the values, keys,
  positions and pages that batches are made of; `src/wire` reads and writes
  numbers in byte buffers.
- `src/buffers` is the one module that is not proved: it states what the calls
  into the `bytes` crate do.

Each function states in its contract what it returns for every input. The
public proof functions whose names begin with `law_` state what holds across
functions: that what was encoded is read back, that counters never go back, that
stored values stay stored.

`app` holds the serializable forms of the types, and fills the batches of shards
that are kept in a map. Sharding decisions, and the key under which a record of
OrioleDB is stored whole, come from outside.
