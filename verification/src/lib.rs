//! A membership-aggregation engine: tracks participant addresses holding
//! non-negative point values derived by mixing two upstream sources through a
//! configurable, deterministic integer-domain function.  The engine keeps a
//! height-versioned snapshot store, a running aggregate total, an ordering by
//! points with deterministic tie-break for cursor pagination, and
//! preauthorization-gated hook and slasher registries.

pub mod addr;
pub mod contract;
pub mod error;
pub mod index;
pub mod laws;
pub mod msg;
pub mod poe;
pub mod slash;
pub mod snapshot;
