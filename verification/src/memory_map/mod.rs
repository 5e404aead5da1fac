//! Memory map types and the entry point for parsing `memory.x` linker scripts.
//!
//! - [`Region`]: a single named memory region with start address and length
//! - [`MemoryMap`]: an ordered list of regions
//! - [`parser::parse`]: parse the text of a `memory.x` file into a [`MemoryMap`]
use vstd::prelude::*;

use crate::arith::saturating_add_spec;

pub mod expression;
pub mod parser;
pub mod tokenizer;

verus! {

/// A list of memory regions parsed from a `memory.x` linker script.
pub type MemoryMap = Vec<Region>;

/// A single named memory region from a `memory.x` `MEMORY { .. }` block.
///
/// Examples: `RAM`, `FLASH`, `dram2_seg`
#[derive(Debug)]
pub struct Region {
    /// Region name as it appears in the linker script.
    pub name: String,
    /// Start address (`ORIGIN`).
    pub start: u64,
    /// Length in bytes (`LENGTH`).
    pub length: u64,
}

/// The abstract value of a region: its name as characters, start and length.
pub struct RegionView {
    pub name: Seq<char>,
    pub start: u64,
    pub length: u64,
}

impl View for Region {
    type V = RegionView;

    open spec fn view(&self) -> RegionView {
        RegionView { name: self.name@, start: self.start, length: self.length }
    }
}

impl RegionView {
    /// First address past the region, clamped at `u64::MAX`.
    pub open spec fn end(self) -> u64 {
        saturating_add_spec(self.start, self.length)
    }
}

impl Region {
    /// First address past the region (`start + length`, saturating).
    pub fn ends_at(&self) -> (end: u64)
        ensures
            end == self@.end(),
    {
        self.start.saturating_add(self.length)
    }
}

} // verus!
