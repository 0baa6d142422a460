# croaring

Compressed bitmaps for Rust, with their behaviour stated in contracts and
proved by Verus.

- `Bitmap` is a set of `u32` values, kept as sorted, disjoint runs. Its
  contracts speak of the set (`Set<u32>`) that the runs denote.
- `Treemap` and `Bitmap64` hold `u64` values as a map from the high 32 bits of
  each value to a `Bitmap` of the low 32 bits.
- `Bitset` is a dense bit array over `u64` words.
- The portable, native and JVM serialization formats are written and read by
  verified code; each writer is proved to produce bytes that its reader turns
  back into the same set, and the treemap readers are proved to reject every
  truncated serialization.
- `laws.rs` states properties that relate several operations (rank and
  position, cursor moves, read after write, serialization of a `Bitmap64`
  against that of a `Treemap`).
- `fuzz_ops`, `fuzz_ops64` and `fuzz_bitvec` hold the checks of the fuzz
  targets, proved once and for all: a bitmap agrees with a treemap, or with a
  bit vector that models it bit by bit, after every operation.

`byteorder` encodes and decodes integers in byte buffers and `bitvec` provides
the bit vector; both are called through small trusted wrappers whose contracts
say what the crates' documentation promises.

`app/` holds what is not verified: writing to `std::io` writers and the
textual (`Debug`) forms of the types.
