# minimage

Minimum-image convention for a periodic parallelepiped.

- `src/` is the verified library: the reduction of a periodic image
  pair list to one minimum-image pair (`reduce_pairs`,
  `reduce_pairs_packed`), the `Error` type, and in `src/reduction.rs`
  the definition of a reduced list together with the laws it obeys
  (uniqueness, idempotence, independence of order and repeats, agreement
  of the packed and row forms).
- `app/` holds the floating-point cell geometry (`Cell`, the batched
  distance kernels, Minkowski reduction), the C ABI (`mi_*`) and the
  Python module, which call the library for the pair reduction.
- `tests/` exercises the library.
