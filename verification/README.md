# tpt_core

The logic of a small data platform, as a verified library: a storage engine, the
indexes and topics of a database, the protocols with which clients speak to it,
and the reactive core of a user interface. Every function states in its contract
what it does, and the proofs are checked by Verus.

## Layout

- `src/` is the library.
  - `wal`, `sstable`, `bloom`, `btree`, `framed`, `cache`, `lease`: logs, tables,
    trees, and who may write.
  - `database/`: rows and their versions, transactions, recovery from the log, the
    catalogue, the upkeep of indexes, topics, and how far a reader lags behind.
  - `canopy_index`, `graph_index`, `geo_index`, `ts_index`, `vector/`: indexes on
    documents, edges, places, times and vectors.
  - `flux`: topics with partitions, retention and consumer groups.
  - `wire/`: the messages of clients, logins, role memberships, and streaming
    over HTTP/2 in `wire/grpc/`.
  - `synapse/`: agents and their checkpoints. `wedge`: transfers between accounts.
  - `appfront/`: trees of elements, signals and effects, stores, routes and their
    description as linked data.
  - `be`, `text`, `json`, `order`, `ranking`, `bytemap`, `strmap`: what the rest
    is built from.
- `tests/` runs the library.
- `app/` is the host: files, sockets, devices, clocks, and what is computed in
  floating-point numbers. It hands the library plain values and carries out what
  the library decides.

## What is trusted

Calls into outside crates stand behind small functions whose contracts are
believed: the Bloom filter of `bloomfilter`, the JSON parser of `serde_json`, the
key derivation and hashes of `pbkdf2`, `hmac` and `sha2`, the random bytes of
`rand`, the text encoding of `base64`, the PEM reader of `rustls-pemfile`, and a
few functions of the standard library. Each has a comment that says what is claimed of it.

Floating-point numbers never enter the library. Degrees and samples are held as
their bit patterns; distances and scores are integers that order as the numbers
do.

Proof functions whose names begin with `law_` state what holds across functions,
such as that a log gives back what was appended, or that a transaction that is
rolled back leaves nothing behind.
