//! Quasi-random (low-discrepancy) sequence generators with machine-checked
//! contracts: Halton and Sobol sequences over exact fractions.
//!
//! A generator is built once for a dimensionality and then draws one point
//! after the other, each a row of [`Fraction`]s in `[0, 1)`:
//!
//! - [`HaltonSeq`] yields, along axis `i`, the radical inverses of
//!   `1, 2, 3, ...` in the base of the prime with index `i`;
//! - [`SobolSeq`] combines direction numbers along the Gray code of its step
//!   counter. It derives them from a [`DirectionTable`] of primitive
//!   polynomials and seed values, which the caller provides;
//! - [`QRngWithBuf`] gives either of them an output buffer of its own.
//!
//! All of them implement [`QRng`]. Both sequences repeat after `2^48` points.
//!
//! Every function states what it computes over mathematical definitions:
//! [`radical_inverse`] for the Halton coordinates, [`sobol`] and [`gray`]
//! for the direction numbers and the Sobol coordinates, [`primality`] for
//! the bases. Beside the contracts stand laws that hold of the sequences:
//! over each complete cycle the Halton coordinates average to one half
//! ([`cycle_mean`]), the Sobol points are stratified along each axis, and a
//! clone draws what the generator that it was made from draws.

pub mod cycle_mean;
pub mod error;
pub mod fraction;
pub mod gray;
pub mod halton;
pub mod primality;
pub mod radical_inverse;
pub mod sobol;
pub mod traits;
pub mod utils;
pub mod with_buf;

pub use crate::error::Error;
pub use crate::fraction::Fraction;
pub use crate::halton::HaltonSeq;
pub use crate::sobol::{DirectionTable, SobolSeq};
pub use crate::traits::{Buffered, QRng};
pub use crate::with_buf::QRngWithBuf;
