# fbgemm

Matrix multiplication with pre-packed weights, verified with Verus.

- `src/` is the library. `pack`, `layout` and `bf16` store a K×N matrix in a blocked layout, in
  full or as bfloat16; `kernels`, `row_group`, `rows` and `gemm` multiply rows with it; `partition`
  cuts rows into groups. `quantized` multiplies bytes with 32-bit accumulators. `product` says what
  a product is, and `laws` and `quantized::laws` what holds of all of them.
- Element types implement `Scalar` (and `Activation` for quantized products). The library
  implements both for `i32`, where every result is exact modulo 2^32.
- `app/` implements them for `f32`, asks the processor for its SIMD capabilities and offers the
  multiplications on slices of `f32`.
- `tests/` runs the library on integers and on floats.

Work is shared out to the rayon thread pool; `parallel` states what is relied on there.
