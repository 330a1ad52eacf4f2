//! Canonicalization backend for CVXPY: turns trees of linear operators into
//! the sparse coefficient tensors that conic solvers consume.
pub mod block;
pub mod counting;
pub mod linop;
pub mod matrix_builder;
pub mod operations;
pub mod reduction;
pub mod scalar;
pub mod serialized;
pub mod sorting;
pub mod tensor;
