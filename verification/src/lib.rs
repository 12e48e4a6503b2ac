//! Dense LU factorization with full pivoting, the solve that uses its
//! factors, and the max-norm reduction.
//!
//! A matrix is a strided view ([`view::MatView`]) over a buffer of IEEE 754
//! binary64 bit patterns. Searching for a pivot and taking a max-norm only
//! compare magnitudes, which on patterns is integer work ([`scalar`]); the
//! arithmetic of an elimination step, and the triangular solves, are the
//! caller's, handed in as functions on patterns. Every contract is stated
//! over what those functions return, so it holds for whatever arithmetic
//! the caller supplies.
//!
//! - [`column`]: the scan of one contiguous column, lane by lane, alone or
//!   fused with an update; [`cover`] holds the theory behind it.
//! - [`pivot`]: the search for the pivot of a matrix, alone or fused with a
//!   rank-one update, for every layout.
//! - [`compute`]: the factorization.
//! - [`permutation`]: permutations and how exchanges compose into one.
//! - [`solve`]: the solve driver and its row permutations.
//! - [`norm_max`]: the max-norm of a real or complex matrix.
//! - [`scratch`]: how much scratch an operation takes.

pub mod column;
pub mod compute;
pub mod cover;
pub mod norm_max;
pub mod permutation;
pub mod pivot;
pub mod scalar;
pub mod scratch;
pub mod solve;
pub mod view;
