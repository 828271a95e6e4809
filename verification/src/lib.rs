//! Kernel language, SSA optimizations and tensor operations of a small
//! tensor compiler, with their contracts.
pub mod lang;
pub mod ssa;
pub mod dce;
pub mod fold;
pub mod kernel;
pub mod shape;
pub mod block;
pub mod lazy;
pub mod quantize;
pub mod tensor_ops;
pub mod launch;
pub mod eval;
pub mod exec;
