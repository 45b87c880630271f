//! A genetic-algorithm search for short closed tours over a fixed set of
//! cities, with the tour encoding and the generational rules verified.

pub mod crossover;
pub mod encoding;
pub mod ga;
pub mod individual;
pub mod random;
pub mod tsp;
