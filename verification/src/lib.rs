//! A verified model of a firmware-stage kernel loader.
//!
//! The library covers the parts of a boot sequence that do real algorithmic
//! work: harvesting the firmware memory map, handing out physical frames,
//! parsing a kernel executable image into loadable segments, materializing
//! each segment's page-aligned backing, and installing page-table mappings
//! with permissions derived from the segment descriptors.  Firmware calls,
//! hardware register access and the final jump into the kernel are left to
//! the surrounding program; the library works on plain values and states in
//! its contracts exactly what each step produces.

pub mod frames;
pub mod handoff;
pub mod image;
pub mod loader;
pub mod memory_map;
pub mod paging;
pub mod platform;
