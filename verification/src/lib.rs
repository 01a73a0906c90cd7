//! Spatial domain decomposition for a set of cooperating compute processes.
//!
//! The crate partitions spatially located work items across `P` ranks so that
//! load stays roughly balanced and nearby items land on the same or adjacent
//! ranks.  It provides the locality-preserving key mapping, the histogram
//! (segment) construction, the cutoff solver and rank router, the migration
//! protocol, and the message-passing substrate the protocol runs on, modeled
//! as explicit per-channel FIFO queues.

pub mod extents;
pub mod peano_hilbert;
pub mod segment;
pub mod cutoffs;
pub mod data_by_rank;
pub mod communication;
pub mod exchange;
pub mod decomposition;
