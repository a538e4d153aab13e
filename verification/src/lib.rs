//! Lowering of a structured intermediate representation for a stack machine:
//! basic blocks, three-address statements, and a schedule of stack and
//! memory-slot operations for each block.
//!
//! The stages, in the order in which a program passes through them:
//! `reader` reads the structured representation (`ir`) off a parse tree
//! (`k_parser`); `splitter` cuts the code into basic blocks (`basic_block`);
//! flattening gives each block its three-address form (`ssa_block`); and
//! `scheduler` gives each block its slot count and operations.

pub mod text;
pub mod k_parser;
pub mod ir;
pub mod reader;
pub mod basic_block;
pub mod splitter;
pub mod splitter_laws;
pub mod ssa_block;
pub mod flatten_laws;
pub mod pipeline;
pub mod registers;
pub mod scheduler;
pub mod schedule_laws;
pub mod schedule_success;
pub mod machine;
