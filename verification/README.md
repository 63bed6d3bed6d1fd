# fastdsu

Disjoint set union (union–find) over fixed-width integer keys, for use from
Python through Arrow arrays. The library under `src/` is verified with Verus;
`app/` is the Python extension module around it.

## Layout

- `src/dsu_core.rs`: `DsuCore`, union by rank with path compression over dense
  ids `0..n`, and the partition model (`merge_all`) that its contracts speak of:
  connectivity and independence from edge order are proved there.
- `src/interner.rs`, `src/keys.rs`: key interning in first-seen order (`u32`
  keys, and typed key arrays widened to `i128`).
- `src/dsu.rs`, `src/compact.rs`: `Dsu`, the keyed DSU: `union_edges`, `add`,
  `components` (each key labelled by the smallest key of its component) and
  `preview_union`, which is proved to agree with a real union.
- `src/dtype.rs`, `src/encoding.rs`: the integer types, their promotion, buffer
  format codes and dtype names, and values as bytes in a byte order.
- `src/labels.rs`: packed labels; reading them back gives the packed values.
- `src/arrow.rs`, `src/buffer.rs`: integer input gathered from Arrow chunks or
  from the bytes of a Python buffer, with range-checked reads.
- `src/maps.rs`: the hash maps of `ahash` and `hashbrown`, with their contracts.
- `app/`: the `pyo3` module (`DSU`, `connected_components`, `Labels`), the
  conversions between Arrow arrays and the library's key arrays, and Python
  exceptions for the library's errors.
