//! Splitting a population of participants into teams, round after round,
//! while keeping each new round as different as possible from earlier ones.
pub mod order;
pub mod team;
pub mod round;
pub mod partition;
pub mod search;
pub mod config;
