//! Partitioning students into groups that are balanced in size and keep
//! incompatible students apart.
//!
//! - [`annealing`]: the simulated-annealing optimizer, built from the
//!   solution model ([`solution`]), the objective ([`objective`]), the
//!   cooling schedule ([`temperature`]), the balanced shape ([`balance`])
//!   and the neighbour move ([`moves`]).
//! - [`backtracking`]: an exact depth-first solver that places every student
//!   under the size quota without co-placing a relationship pair.
//!
//! Scores and temperatures are exact fractions of integers; randomness comes
//! from a generator that the caller passes in and may seed.

pub mod ids;
pub mod solution;
pub mod error;
pub mod random;
pub mod balance;
pub mod moves;
pub mod objective;
pub mod temperature;
pub mod annealing;
pub mod backtracking;
pub mod request;
