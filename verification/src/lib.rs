//! Physical-memory bootstrap layer of a small kernel: interprets the
//! boot-time memory map, hands out 4 KiB physical frames from the usable
//! regions, and translates between physical and virtual addresses through
//! the fixed physical-memory offset mapping.  A small process-state record
//! (id, working directory, environment) rides along.

pub mod memory;
pub mod process;
pub mod translate;
