//! Fixed-capacity, insert-only tables keyed by unsigned integers.
//!
//! Two collision strategies share one contract: [`chained`] keeps a chain of
//! entries per bucket, [`probing`] places each entry in a single slot and
//! probes linearly over a permuted index space. [`xorshift`] is the small
//! pseudo-random generator that builds the permutation.

pub mod chained;
pub mod model;
pub mod probing;
pub mod xorshift;
