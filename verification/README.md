# Strided tensor layouts, verified

A tensor's layout is its shape, one stride per dimension (in elements) and the offset
of its first element in the storage. This crate implements the operations on layouts —
contiguity tests, narrowing, transposing, permuting, broadcasting, splitting into
contiguous blocks, walking the storage offsets and reshaping without a copy — and proves them with Verus against a
mathematical model (`src/model.rs`): the element with row-major index `x` lives at
`start_offset + elem_offset(dims, stride, x)`.

The central result is `Layout::strided_reshape`: when it returns new strides, the new
layout addresses exactly the same elements in the same order; and whenever some strides
would do so (for positive dimensions whose storage extent fits in a `usize`), it returns
them.

- `src/` — the verified library (`model`, `shape`, `layout`, `strided_index`, `error`,
  `gemm_dispatch`, and `laws`, the properties relating the operations).
- `tests/` — unit tests.
- `app/` — the unverified runtime parts: opaque custom-backend handles and the registry of
  a pluggable GPU GEMM function.
