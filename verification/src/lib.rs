//! Synthetic datasets for two-dimensional diffusion: a zero-boundary
//! explicit solver on a square grid, a synthesizer of initial conditions,
//! and the sampling of trajectories into labelled input/target pairs.
//!
//! Numbers are carried as IEEE-754 single-precision encodings (`u32`).
//! The library decides everything that is a matter of order, range, index
//! or count, and proves it. The rounded arithmetic itself is done by an
//! evaluator that the caller supplies, and draws of numbers by a sampler
//! of the caller's; contracts say which operations are asked of them, on
//! which operands, and what is done with the results.
//!
//! - [`single`]: order and limits of encodings.
//! - [`arith`]: the evaluator and the sampler.
//! - [`grid`]: indices and the border of a square grid.
//! - [`solver`]: the solver.
//! - [`shapes`], [`blur`], [`normalize`], [`ic`]: initial conditions.
//! - [`mu_set`]: the set of jump sizes.
//! - [`pipeline`]: configurations, trajectories and samples.
//! - [`random`]: the random stream.

pub mod arith;
pub mod blur;
pub mod grid;
pub mod ic;
pub mod mu_set;
pub mod normalize;
pub mod pipeline;
pub mod random;
pub mod shapes;
pub mod single;
pub mod solver;
