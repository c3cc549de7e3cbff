# rasen_archive

A verified library for RPAK v1 asset archives: a 60-byte header, chunks
stored independently (LZ4-compressed when that is smaller, optionally sealed
with XChaCha20-Poly1305), and a table of contents that is checksummed with
XXH3-64, LZ4-compressed and XOR-obfuscated or sealed.

The library is written in Verus. Its contracts describe archives through
mathematical models: `spec_open` says exactly what opening a byte sequence
yields (the archive model or the first error), `spec_read`, `spec_read_chunk`
and `spec_read_range` what reads yield, and `is_packing` what bytes a pack
writes. Laws that relate the functions are proof functions, among them:

- `lemma_packed_files_read_back`: a packed archive opens under any limits
  that admit it, and reading a packed path gives the packed bytes;
- `lemma_pack_verifies`: a packed archive verifies;
- `lemma_pack_deterministic`: packing with XOR protection is a function of
  the key, the options and the files;
- `lemma_range_read_is_slice` and `lemma_chunk_read_is_slice`: range and
  chunk reads are the matching slices of the whole asset;
- `lemma_normalize_idempotent`: normalizing a normalized path changes nothing.

For sources and streams held in memory (slices, vectors, shared slices,
cursors) the contracts of opening and reading are exact: the result is the
one the model gives, errors included. Every archive source defines the bytes
it holds, so implementations of `RandomAccessRead` are written in Verus. The
stream and asset-reader traits keep empty default models for plain Rust
implementations (the streaming tests drive the packer through such
adapters); what is proved does not carry over to those.

Calls into `lz4_flex`, `xxhash-rust`, `blake3`, `chacha20poly1305` and
`getrandom` go through small trusted wrappers whose doc comments say what
their contracts claim.

## Layout

- `src/`: the library. `format`, `toc`, `layout`, `limits` and `index` hold
  the wire format and its checks; `reader` and `model` opening and reading;
  `pack` and `sink` packing; `path` path normalization and identifiers;
  `codec` and `crypto` the trusted wrappers; `roundtrip` and `deterministic`
  the laws about packing; `order` the deterministic order of virtual paths;
  `args` the packers' command-line options; `ffi` the plain values of the C
  interface.
- `tests/`: tests of the library.
- `app/`: the `rasen-pack` command-line tool (directory walking, files,
  printing) over the library; run as `rasen-packer`, it takes the
  subcommand-style command line parsed with clap.
