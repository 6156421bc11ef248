//! Hybrid query engine: a pseudo-SQL compiler, a circuit optimiser and
//! transpilers, sharded record storage, a byte cache, record encryption and
//! the cloud-driver decision logic, each stated and proved with Verus.
pub mod text;
pub mod records;
pub mod compiler;
pub mod algorithms;
pub mod storage;
pub mod engine;
pub mod drivers;
