//! Reference discovery and reference processing for a tracing, relocating
//! garbage collector: per-kind, per-worker discovered lists threaded through
//! the reference objects themselves, the discovery gate, the end-of-trace
//! processing of soft, weak, final and phantom references, and the hand-off
//! of cleared references to the runtime's pending list.

pub mod abi;
pub mod collection;
pub mod gate;
pub mod heap;
pub mod laws;
pub mod object_scanning;
pub mod processing;
pub mod reference_glue;
pub mod scanning;
pub mod schedule;
