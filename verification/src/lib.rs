//! Steady-state analysis of a finite-capacity multi-server queue.
//!
//! The queue is modelled as a continuous-time Markov chain over the
//! occupancy states `0 ..= channel_count + queue_size`.  The crate builds
//! the chain's generator matrix from the model parameters, solves the
//! augmented balance equations for the stationary distribution, and
//! derives scalar performance metrics from that distribution.
//!
//! All arithmetic is exact: rates and probabilities are rational numbers
//! (`rational::Frac`), so the proved contracts speak of true rational
//! values rather than floating-point approximations.

pub mod linalg;
pub mod qtmcore;
pub mod qtmdata;
pub mod rational;
pub mod utility;
