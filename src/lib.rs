//! Locating a loaded Mach-O image in a process's memory and resolving the
//! symbols it exports.
//!
//! - `memory`: the target process's memory as readable regions.
//! - `macho`: the header scan, the load command walk, the file-offset map and
//!   the symbol table session with its lookup in memory.
//! - `file_lookup`: the lookup through the module's file.
pub mod file_lookup;
pub mod macho;
pub mod memory;
