//! Process- and memory-management core of a teaching operating-system kernel.
//!
//! The crate models a single-core, cooperatively scheduled kernel: a table of
//! process control blocks with exactly one `Running` process, per-process
//! virtual address spaces with page-granular mapping, an in-memory filesystem
//! behind the file-descriptor table, and the syscall entry points that tie
//! them together. Physical memory is an index-addressed frame arena, so
//! virtual-to-physical translation returns indices and offsets, never raw
//! addresses.
//!
//! The model is bounded by explicit caps — process slots, fd slots per
//! process, directory entries, a file's byte size, the clock — where real
//! hardware is bounded by memory and disk; a request past a cap fails with
//! the generic error code. The caps keep every count and cast within its
//! machine type.

pub mod aspace;
pub mod fs;
pub mod kernel;
pub mod laws;
pub mod sysfs;
pub mod sysproc;
