# cvxpy_rust

Canonicalization backend for CVXPY: it turns the trees of linear operators
(LinOps) that CVXPY builds for a problem into the sparse coefficient tensor
that conic solvers consume.  The library is written in Verus: the functions
under `src/` carry contracts that Verus checks, except three trusted
wrappers (`external_body`) around the standard library's sort and rayon's
parallel sort and parallel map, whose contracts are taken on trust.

## Layout

- `src/linop.rs`: LinOp trees, operation codes and names, sizes, the nnz
  estimate, the parameter test.
- `src/serialized.rs`: reading trees from the flat pre-order node stream and
  its two data buffers; `decode_tree` states what a read yields.
- `src/operations/`: lowering a tree to a tensor.  `lower` (in `mod.rs`)
  states the entries each handler produces; `leaf.rs`, `arithmetic.rs` and
  `structural.rs` hold the handlers, `partial.rs` the row-restricted
  lowering (through negations, reshapes, sums, elementwise products,
  quotients, products on either side and indexing; it equals the full
  lowering filtered to the rows), and `mod.rs` the dispatcher and the structure pass
  (`count_nnz`, which counts the entries a tree lowers to exactly, an
  index as its argument).  `lemma_identity_product` and
  `lemma_mul_by_identity_is_product` show that the identity fast path of a
  product emits the entries of the general product `kron(I_k, A) @ X`.
- `src/block.rs`: the typed values of lowered nodes (identity, dense, COO).
- `src/tensor.rs`: COO tensors, row selection, concatenation and flattening
  to the problem-data matrix.
- `src/matrix_builder.rs`: stacking the lowered constraints and flattening
  them; the cached graph that reuses the tensors of parameter-free
  constraints.
- `src/reduction.rs`, `src/counting.rs`: the CSR/CSC reduction of the
  problem-data matrix (duplicate coordinates summed, zeros dropped).
- `src/sorting.rs`, `src/scalar.rs`: sorting by integer keys (standard library
  and rayon) and the coefficient type.
- `app/lib.rs`: the Python module (PyO3 and NumPy): reading Python objects,
  returning NumPy arrays.
- `tests/`: tests of the library, run with `f64` coefficients.

The backend lowers variables, parameters, constants (scalar, dense and
sparse), sums, negations, reshapes, products on either side, elementwise
products and quotients, indexing and no-ops.  The Python module refuses, with
`NotImplementedError`, trees holding any other operation: transpose,
promote, broadcast, the stacks and concatenation, `sum_entries`, trace, the
diagonals, `upper_tri`, convolution and the Kronecker products.

Statements about coefficient values hold when the coefficient type's
operators follow their vstd specifications (`exact`); the shapes of the
results, the ranges of their rows, the read trees and the error cases hold
for every coefficient type.
