//! Hypothesis-testing computation engine over exact rational arithmetic.
//!
//! Every test computes its statistic exactly, as a rational number (or the
//! signed square of one, where the textbook statistic involves a square
//! root).  Probability-distribution evaluations — cumulative distribution
//! values and quantiles — are irrational in general and are therefore taken
//! as inputs: each test prepares a plan naming the reference distribution
//! to consult, a caller evaluates it at the points the plan implies, and a
//! finishing function turns the evaluations into the uniform result
//! record, whose rejection decision is exactly `p_value < alpha`.
//!
//! - [`rat`] — exact rational arithmetic and its specification calculus.
//! - [`stats`] — sums, means and sample variances.
//! - [`common`] — errors, tail selection, the result record, the
//!   tail-aware p-value and confidence-interval calculus, and the
//!   finishing functions.
//! - [`text`] — rendering of the hypothesis strings.
//! - [`t`], [`z`], [`proportion`] — location tests.
//! - [`anova`], [`chi_square`], [`mann_whitney`] — the F, chi-squared and
//!   rank-based tests.

pub mod anova;
pub mod chi_square;
pub mod common;
pub mod mann_whitney;
pub mod proportion;
pub mod rat;
pub mod stats;
pub mod t;
pub mod text;
pub mod z;
