//! Selection of a portfolio of parallel algorithm configurations for a fixed
//! pool of cores.
//!
//! The library turns observed runs (algorithm, instance, quality, time) into
//! what an allocation solver consumes: the best quality per instance, the
//! number of instances each algorithm wins, the tensor of expected best
//! qualities per instance, algorithm and number of replicas, and a rounded
//! initial assignment of cores. It reads a portfolio back from the solver's
//! assignment matrix and simulates the execution of portfolios on the
//! observed runs.
//!
//! Every quantity that is a real number in the problem statement is held as a
//! fixed-point integer, see [`fixed`]. Rows are grouped by the names of
//! instances and algorithms, in the ascending order of [`text`] and
//! [`table`].
//!
//! - [`csv_parser`] builds the input of the solver from the aggregates of
//!   [`csv_parser::utils`], the slowdown filter of [`csv_parser::slowdown`],
//!   the estimates of [`csv_parser::estimates`] and the completeness pass of
//!   [`csv_parser::completion`].
//! - [`estimator`] is the normal approximation of the expected best quality,
//!   [`sampling`] draws from the observed runs.
//! - [`solver`] rounds shares of the cores to an initial assignment and reads
//!   portfolios from assignment matrices.
//! - [`portfolio_simulator`] simulates portfolios.
//! - [`datastructures`] holds instances, algorithms and portfolios, [`tensor`]
//!   the arrays handed to the solver, [`config`] and [`mt_kahypar_parser`]
//!   what programs around the library are configured with and read.
//! - [`random`] holds the seeded random choices.

pub mod config;
pub mod csv_parser;
pub mod datastructures;
pub mod estimator;
pub mod fixed;
pub mod mt_kahypar_parser;
pub mod portfolio_simulator;
pub mod random;
pub mod sampling;
pub mod solver;
pub mod table;
pub mod tensor;
pub mod text;
