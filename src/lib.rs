//! Streamed, procedurally generated hex-grid world: coordinate mapping,
//! deterministic terrain generation, chunk caching, observer-driven
//! loading and unloading, and per-tile charting state.

pub mod coords;
pub mod observers;
pub mod terrain;
pub mod world;
