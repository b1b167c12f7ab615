# rustruct

Declarative binary wire formats: a schema of named fields (integers,
floats, raw bytes, length-prefixed bytes and text, C strings, flags, bit
fields, nested structs and windows, arrays, switches, conditional fields
and digests) is compiled once into a program, which then unpacks buffers
into values and packs values back into bytes.

The library is written in Verus. Each public function carries a contract,
and the decoder and encoder are stated against spec interpreters
(`decoding.rs`, `encoding.rs`); laws about them (a prefix of a buffer asks
for exactly the bytes that are missing, packing what was read gives the
bytes back, a derived length is the inverse of its expression) are proof
functions in the modules they concern.

## Layout

- `src/schema.rs`, `src/parse.rs`, `src/form.rs`: schemas as data and as
  text.
- `src/compile.rs`: the schema compiler, with the shape of the program it
  builds.
- `src/program.rs`, `src/expr.rs`: compiled programs and their
  expressions.
- `src/unpack.rs`, `src/decoding.rs`, `src/streaming.rs`: decoding, its
  model and the streaming laws.
- `src/pack.rs`, `src/encoding.rs`, `src/restore.rs`, `src/fixed.rs`:
  encoding, its model and the round-trip laws.
- `src/digest.rs`: CRCs and the Internet checksum, and the hashes, which
  are called from the RustCrypto crates.
- `app/`: the Python binding (pyo3), which converts Python objects to
  and from the library's values.
- `tests/`: scenarios on concrete schemas and buffers.
