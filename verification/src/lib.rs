//! Core of a real-time quantum error correction control unit.
//!
//! A streaming union-find decoder pipeline: syndrome packets flow through a
//! single-producer/multi-consumer job queue to workers that run a
//! parity-tracking union-find over a static decoding graph and emit
//! correction edges.  The modules here hold the decoder and its data layout,
//! the decoding graph, the queues, and the loop logic of the primary and
//! worker agents; the surrounding process (clocks, cores, console) stays
//! outside.

use vstd::prelude::*;

pub mod allocator;
pub mod bit_utils;
pub mod decoder;
pub mod dsu;
pub mod graph;
pub mod isa;
pub mod pauli_frame;
pub mod pipeline;
pub mod ring_buffer;
pub mod spmc;
pub mod static_vec;
pub mod stats;
pub mod vm;

verus! {

/// Errors raised by the decoding pipeline.
#[derive(Clone, Copy, Debug, PartialEq, Eq, Structural)]
pub enum QecError {
    /// A detector index referenced a node outside the decoding graph.
    NodeOutOfBounds,
    /// The decoder could not produce a valid correction.
    DecodingFailed,
    /// An allocation request exceeded the arena window.
    OutOfMemory,
    /// A bounded output sink ran out of capacity.
    BufferOverflow,
}

} // verus!
