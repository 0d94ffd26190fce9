# yotepack

An erasure-coded, S3-style object store, verified with Verus.

Objects are cut into chunks of 64 MiB, optionally compressed with zstd, erasure-coded with
Reed-Solomon over all disks, and read back from any of them that hold enough shards. The metadata of
each object version is replicated to a key-value database on every disk.

## Layout

- `src/` is the library. It decides and computes: what is written to disks and databases, what the
  outcomes mean, and what requests are answered. Everything in it is verified, on top of the
  outside calls that are named below.
  - `config`, `errors`, `cluster`, `checksum`, `compression`: settings, errors and the tools below
    the store.
  - `shards`, `erasure`, `disk`, `chunk_store`, `object_write`, `object_read`: from the bytes of an
    object to mega-files and back.
  - `record`, `metadata_map`, `metadata`, `versions`, `buckets`, `scan`, `listing`, `history`: the
    replicated metadata, and what becomes of the versions of an object over time.
  - `api`, `operations`, `round_trip`: the operations of the store, and the way of an object from its
    write to its reads.
  - `apis`, `xml`: the S3 interface.
  - `storage_engine`, `transaction_log`, `key_paths`, `fsutil`, `in_flight`: a second engine, with one
    directory per object and a write-ahead log per disk.
- `tests/` runs the library on disks and databases that are held in memory.
- `app/` is the server: the command line, files, databases and HTTP.

Public proof functions whose names start with `law_` state what holds of the store as a whole, for
example that an object is read back whatever is lost on as many disks as there are parity shards.

## What is trusted

The proofs rest on contracts of calls that Verus does not see into. Each stands in the module that
makes the call, with a comment that says what is claimed of it.

- `checksum`: xxh3 of `xxhash-rust` and the hasher of `blake3`.
- `compression`: `zstd` compression, decompression and the length of a frame.
- `erasure`: the encoder, decoder and errors of `reed-solomon-simd`.
- `cluster`: `uuid` parsing, formatting and random ids.
- `record`, `operations`: `serde_json` on maps of strings and on access control lists.
- `clock`, `apis::s3`: `chrono`, for the current time and for dates in headers; `apis::s3` also the
  MD5 digest of `md-5`.
- `xml`: the writer of `quick-xml`.
- `key_paths`: `percent-encoding` of bytes and texts.
- `transaction_log`: Cap'n Proto messages of `capnp`, for the entries of the log.
- `in_flight`: the concurrent set of `dashmap`.
- `text`: `String::push`, lower case and lossy UTF-8 of the standard library.
