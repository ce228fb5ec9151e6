//! Order-book tracking core for a streaming market-data client.
//!
//! The library reconstructs a local mirror of an exchange order book from a
//! full snapshot plus incremental deltas, and decides after each delta whether
//! the top of book changed and in which direction. Transport, JSON framing,
//! terminal rendering and logging are left to the surrounding application.

pub mod book;
pub mod decimal;
pub mod message;
pub mod precision;
pub mod token;
pub mod tracker;
