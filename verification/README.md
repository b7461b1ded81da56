# tensor_graph

Strided tensors over shared buffers, verified with Verus.

- `src/layout.rs`: the mathematical model of a strided layout (products of
  extents, row-major strides, multi-indices, addresses) and its lemmas.
- `src/shape.rs`: `Shape`, the extents of a tensor of rank at most 4.
- `src/graph.rs`: `Graph`, tensor records over storage buffers; `transpose`
  and `reshape` add views without moving data, `contiguous` materialises a
  view in row-major order.
- `src/rng.rs`: the xoshiro256++ generator seeded through splitmix64.
- `app/lib.rs`: floating-point sampling (uniform, normal) on top of the
  generator.
- `tests/`: the test suite.
