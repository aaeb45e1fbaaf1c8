//! Backend core for an addressable multi-endpoint lighting installation.
//!
//! Controller units sit on a shared bus, each exposing several dimmable
//! endpoints. This library holds the verified core: the wire protocol for
//! probing units and moving 16-bit light levels, the reconciler that keeps
//! persisted device/point records in step with the hardware, the mapper
//! from logical points to per-device level arrays, the change coalescer
//! that batches bursts of edits into one hardware sync, and the exclusion
//! gate for the synchronous write path.

pub mod batcher;
pub mod calls;
pub mod dispatcher;
pub mod errors;
pub mod gate;
pub mod i2c;
pub mod mapper;
pub mod models;
pub mod props;
pub mod reconcile;
pub mod seq_facts;
