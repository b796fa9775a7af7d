# strata_reader

A `BufReader`-style reader whose buffer starts at one chunk (8 KiB), grows on demand in
chunk-aligned steps up to a configurable maximum, keeps consumed bytes for lookbehind, and
leaves compaction, shrinking and discarding to the caller. The library is written in Verus:
every function in `src/` carries a contract. Verus proves them all except those of the few
wrappers around `std` calls (in `src/source.rs` and `src/error.rs`), whose contracts are
trusted as the `std` documentation states them.

Layout:

- `src/capacity.rs`: chunk size, capacity limits, and the linear and exponential roundings.
- `src/buffer.rs`: `Buffer`, its abstract view `BufferView`, and the fill loops.
- `src/search.rs`: finding a byte sequence, and the UTF-8 encoding of a `char`.
- `src/reader.rs`: `Reader` and `ReaderBuilder`, with the `Read`/`BufRead`/`Seek`-style
  methods and the bounded fills.
- `src/read.rs`: the `DynamicRead` trait (buffer inspection and memory management).
- `src/laws.rs`: properties relating the operations to one another.
- `src/error.rs`: `ReadError` and `ErrorKind`.
- `src/source.rs`: the calls into `std::io` and `std::str` that the library relies on.
- `app/lib.rs`: `IoReader`, which implements `std::io::Read`, `BufRead` and `Seek` on top of
  the verified methods.
