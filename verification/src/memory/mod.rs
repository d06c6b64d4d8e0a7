//! Memory accounting for the engine's pools.
pub mod manager;
