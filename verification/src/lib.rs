//! Pointer-chasing read latency measurements and CPU cache descriptions.
pub mod analysis;
pub mod cache;
pub mod latency;
pub mod text;
