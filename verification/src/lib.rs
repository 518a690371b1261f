//! Symbol-resolution core of a whole-system CPU profiler for binaries built
//! by a garbage-collected, goroutine-based language runtime.
//!
//! The library parses the versioned in-binary function table, decodes its
//! delta-compressed PC-to-value lanes, merges debug-line information, routes
//! kernel addresses to the kernel symbol listing, and folds aggregated stack
//! samples into flame-graph input lines.  All I/O stays with the caller:
//! every function here works on plain values.
pub mod common;
pub mod dwarf;
pub mod elf;
pub mod fold;
pub mod names;
pub mod pclntab;
pub mod resolver;
pub mod runtime;
pub mod sampling;
pub mod strutil;
