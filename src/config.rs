//! Run parameters shared by every pass.
use vstd::prelude::*;
use crate::architecture::Architecture;

verus! {

/// Parameters of a run, with the address map of the machine's memory controller.
pub struct Config<A: Architecture> {
    /// Number of low address bits that the buffer's alignment fixes.
    pub aligned_bits: usize,
    /// Iterations of the hammer loop per hammering.
    pub reads_per_hammer: usize,
    /// The quantum of guaranteed physical contiguity, in bytes.
    pub contiguous_dram_addr: usize,
    /// The address map.
    pub arch: A,
}

} // verus!
