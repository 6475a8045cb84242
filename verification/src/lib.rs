//! Address index and local cache of a light wallet node: the record formats it
//! persists, and the in-memory engine that keeps its indices consistent.

pub mod accumulator;
pub mod cache;
pub mod chain;
pub mod database;
pub mod decimal;
pub mod error;
pub mod fields;
pub mod hex;
pub mod keyed;
pub mod record;
pub mod state;
pub mod text;
