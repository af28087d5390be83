//! Ranked matchmaking: players wait in one queue per rank tier and are
//! drawn in arrival order into matches of two teams of five.

pub mod models;
pub mod clock;
pub mod ids;
pub mod match_pool;
pub mod handlers;
pub mod matchmaker;
pub mod laws;
