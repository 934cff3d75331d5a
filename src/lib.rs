//! Chunked partial products over the Goldilocks field: computing them, checking a claimed
//! set of them, and emitting the same check as constraints of an arithmetic circuit.
pub mod circuit;
pub mod field;
pub mod partial_products;

pub use crate::circuit::{CircuitBuilder, Target, Wire};
pub use crate::field::GoldilocksField;
pub use crate::partial_products::{
    check_partial_products, check_partial_products_recursively, num_partial_products,
    partial_products,
};
