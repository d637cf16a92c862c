//! Whittaker-Henderson smoothing: exact construction of the finite-difference
//! penalty operator and of the symmetric system it induces.
//!
//! The smoother solves `(I + lambda * D' * D) x = y` for the smoothed series
//! `x`, where `D` is the order-`d` finite-difference matrix. Everything that
//! is exactly representable in integers — the difference stencil, the matrix
//! `D`, the Gram matrix `A = D' * D`, and the input validation — lives here
//! with full contracts. The scaling by `lambda` and the floating-point solve
//! are left to the caller.

mod matrix;
mod whittaker_henderson_smoother;

pub use matrix::Matrix;
pub use whittaker_henderson_smoother::{
    difference_matrix, difference_stencil, lemma_penalty_identity_at_order_zero, penalty_matrix,
    validate_request, SmootherError, MAX_ORDER,
};
