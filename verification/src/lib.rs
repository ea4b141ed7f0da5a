//! Virtual-memory management for a small 64-bit kernel, stated over an explicit
//! model of the machine: physical memory holding page tables, the table-base
//! register, and a journal of translation-cache invalidations.

pub mod machine;
pub mod memory;
pub mod vga_buffer;
