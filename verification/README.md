# ug

The kernel language and tensor operations of `ug`, a small tensor compiler,
written in Verus: every executable function in `src/` carries a contract, and
the properties that span several functions are stated and proved as laws.

## Layout

- `src/lang.rs`: the kernel language (types, operations, constants, SSA
  instructions) and the library's error type.
- `src/ssa.rs`: what an instruction reads and what it is tied to, and the
  well-formedness of a kernel, with an executable check.
- `src/fold.rs`, `src/dce.rs`: constant folding and dead-code elimination,
  their specifications and laws (rewrites only to constants, well-formedness
  kept, roots kept, the kept set is the least closed set, idempotence).
- `src/kernel.rs`: kernels that are well formed by construction, and
  `optimize`.
- `src/block.rs`: a builder that keeps a kernel well formed while it grows.
- `src/shape.rs`: products of dimensions and the bound that keeps them
  representable.
- `src/lazy.rs`: lazy tensors (shape, element type, producing operation).
- `src/tensor_ops.rs`, `src/quantize.rs`: operations that generate kernels
  (pad, gather, scatter, cumulative sum and product, arg-max, top-k,
  multi-dimension reduction, quantization), each stated as the exact kernel
  it produces.
- `src/eval.rs`: the `i32` index arithmetic of kernels and the buffers that
  loads and stores reach, and laws showing that the generated kernels read
  and write the elements they mean (row-major offsets, without overflow),
  and that a gather reads where a scatter with the same indices writes.
- `src/exec.rs`: a semantics for running kernels over `i32` values (loops,
  accumulators, loads and stores), and laws on what whole kernels compute:
  scans store running sums and products, arg-max stores the first index of
  the largest element, gather and scatter move the indexed elements, and a
  gather with the same indices reads back what a scatter wrote.
- `src/launch.rs`: shape checks and launch parameters of the hand-written GPU
  kernels.
- `tests/`: tests of the library on concrete values.
- `app/`: the Metal runtime around the library (device objects, command
  encoding, kernel launches) and the floating-point evaluator used by
  constant folding. It builds on Apple platforms only.
