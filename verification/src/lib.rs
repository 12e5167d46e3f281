//! Host telemetry core: parsing of kernel counter text, derived metric
//! computation, and an append-only history store with bounded range queries.
//!
//! The surrounding process (HTTP routing, file reads, the sampler loop and
//! the on-disk database) hands this library plain values and takes plain
//! values back; everything here is verified.

use vstd::prelude::*;

pub mod errors;
pub mod history;
pub mod metrics;
pub mod text;
pub mod timestamp;

pub use errors::MetricError;

verus! {

} // verus!
