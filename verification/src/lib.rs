//! Visualise how the sections of an ELF binary are laid out across the memory
//! regions that a GNU linker script (`memory.x`) defines.
//!
//! The library holds the verified logic: the `memory.x` tokenizer, expression
//! evaluator and `MEMORY { .. }` parser, the assignment of sections to regions,
//! the selection of the sections that end up in the binary, the arithmetic and
//! text of the two map renderings, and the small decisions of the cargo driver.
use vstd::prelude::*;

pub mod arguments;
pub mod arith;
pub mod builder;
pub mod layout;
pub mod memory_map;
pub mod render;
pub mod sections;
pub mod text;

verus! {

} // verus!
