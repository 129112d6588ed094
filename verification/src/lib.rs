//! Per-state hit counts by date: validation, an append-only store with a
//! latest-per-key range query, and the daily roll-up of what it returns.

pub mod aggregate;
pub mod guarantees;
pub mod hit;
pub mod service;
pub mod store;
pub mod text;
pub mod validation;
