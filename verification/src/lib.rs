//! An incremental cooking pipeline for composite assets ("prefabs").
//!
//! A prefab names other prefabs that it builds on. The pipeline keeps the raw
//! records that loaders hand in, waits until everything a record builds on has
//! been published, computes the order in which the records of its closure have
//! to be flattened, and republishes the dependents of a record whenever that
//! record changes.

pub mod cook;
pub mod cook_laws;
pub mod fifo;
pub mod idset;
pub mod ingest_laws;
pub mod model;
pub mod pipeline_laws;
pub mod queue;
pub mod storage;
pub mod types;
