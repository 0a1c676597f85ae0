# rinha_de_backend_2026_fabio_rust

A fraud-scoring service: a request is turned into a 14-component vector,
compared with labelled reference vectors, and approved unless at least 60%
of its five nearest references are labelled fraud.

Layout:

- `src/` — the library, checked by Verus:
  - `index.rs`: the binary reference index format (header, fixed-size
    little-endian records) with its encoder, decoder and round-trip lemma;
    a header whose announced byte length overflows `usize` is told apart
    before decoding;
  - `partition.rs`: the bucket partition of the references and the
    ring-by-ring candidate search, with lemmas on what a ring collects;
  - `topk.rs`: the fixed-capacity nearest-entry selection and its stable sort,
    with the lemma that it keeps the closest entries;
  - `scoring.rs`: the neighbour vote and the approval rule, with the lemma
    that relabelling references as fraud never turns a rejection into an
    approval;
  - `vectorize.rs`: timestamp reading and subtraction (through chrono), the
    latter stated in full, leap seconds included, with the lemmas that
    outside leap seconds the elapsed seconds are truncated toward zero and
    that the time features depend on the instants and not on their UTC
    offsets, and the other integer-valued request features;
  - `resources.rs`: which reference file to load, and the decompression of
    gzip-compressed references (through flate2);
  - `config.rs`, `types.rs`: port selection and the reference label.
- `app/` — the HTTP server, file and JSON loading, and the floating-point
  parts (vector components, bucket coordinates, distances).
- `tests/` — tests of the library.
