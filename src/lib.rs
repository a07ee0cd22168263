//! Rowhammer templating and Rambleed-style read-out over a DRAM-contiguous buffer.
//!
//! The library holds the logic: the DRAM address map, the row index of a buffer,
//! pattern-driven flip discovery, flip characterisation, the read exploit and the
//! calibration search. Hammering and timing go through the [`hammer::HammerPort`]
//! trait, which the program around the library implements on real hardware.
use vstd::prelude::*;

pub mod architecture;
pub mod intelivy;
pub mod config;
pub mod memmap;
pub mod hammer;
pub mod profile;
pub mod exploit;
pub mod procure;
