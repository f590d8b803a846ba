//! An election record-keeper: elections move through a fixed lifecycle, every
//! voter casts at most one ballot per election, and tallies are computed on
//! demand from two size-bounded persistent regions.

pub mod ballot;
pub mod details;
pub mod lifecycle;
pub mod record;
pub mod registry;
pub mod service;
pub mod store;
pub mod tally;
pub mod text;
