//! Executable algebra, tensors, jets and combinatorial topology with
//! machine-checked contracts.

pub mod algebra;
pub mod chart;
pub mod presentation;
pub mod homology;
pub mod elimination;
pub mod nerve;
pub mod tensor;
pub mod kernels;
pub mod jet;
pub mod dual;
pub mod residue;
pub mod transport;
pub mod elementary;
