//! Batch adjustment of relevance scores with a clamped advertising boost.
//!
//! Scores and weights are IEEE-754 binary32 numbers, handled here by their
//! bit patterns (`u32`), so that every result is pinned down bit for bit:
//! [`binary32`] orders the patterns, [`rounding`] rounds exact quantities to
//! nearest with ties to even, and [`arith`] multiplies and adds.
//!
//! The scalar rule for one record is in [`score`], its eight-lane branchless
//! counterpart in [`group`], and the in-place transformation of a whole
//! batch in [`batch`]. What holds of them for all inputs is in [`laws`].

pub mod binary32;
pub mod rounding;
pub mod arith;
pub mod score;
pub mod group;
pub mod batch;
pub mod laws;
