//! A stochastic demographic simulation of settlements: a fixed-radix calendar,
//! per-person attribute tags, people, a factory that mints them, the
//! population engine that advances a settlement one tick at a time, and the
//! towns and the world that hold populations and advance them year by year.
//!
//! Every function is verified against its contract, but for the few in
//! `random` and the one in `person::person_generator` that call the `rand`
//! crate and `str::split`: those state what the call is documented to do.

pub mod person;
pub mod random;
pub mod town;
pub mod utility;
pub mod world;
