//! The boot-info record and the boot plan.
//!
//! At handoff the kernel receives one plain data record describing the
//! platform: the selected display mode and frame buffer, the memory map, the
//! firmware table addresses, and the optional secondary image.  The record
//! is assembled once, here, from values the other components produced; the
//! jump itself is a hardware operation outside the library.

use vstd::prelude::*;
use crate::memory_map::Region;

verus! {

/// The display snapshot folded into the boot info: mode resolution plus the
/// frame buffer's physical address and size.
#[derive(Clone, Copy, PartialEq, Eq, Structural, Debug)]
pub struct GraphicInfo {
    pub width: u64,
    pub height: u64,
    pub frame_buffer_addr: u64,
    pub frame_buffer_size: u64,
}

/// The record handed to the kernel: display descriptor, memory map snapshot,
/// firmware table addresses, and the optional secondary image (address 0 and
/// length 0 when none was loaded).
pub struct BootInfo {
    pub graphic: GraphicInfo,
    pub memory_map: Vec<Region>,
    pub acpi_table_addr: u64,
    pub smbios_table_addr: u64,
    pub secondary_image_addr: u64,
    pub secondary_image_len: u64,
}

/// Everything the handoff step needs, threaded explicitly rather than held
/// as global state: the new hierarchy root, the kernel entry address, and
/// the boot info.
pub struct BootPlan {
    pub page_table_root: u64,
    pub entry_point: u64,
    pub info: BootInfo,
}

/// Assemble the boot info record.  Every field is taken unmodified from the
/// component that produced it; when no secondary image was loaded, its
/// address and length are both zero.
pub fn build_boot_info(
    graphic: GraphicInfo,
    memory_map: Vec<Region>,
    acpi_table_addr: u64,
    smbios_table_addr: u64,
    secondary_image: Option<(u64, u64)>,
) -> (r: BootInfo)
    ensures
        r.graphic == graphic,
        r.memory_map@ == memory_map@,
        r.acpi_table_addr == acpi_table_addr,
        r.smbios_table_addr == smbios_table_addr,
        match secondary_image {
            Some(pair) => r.secondary_image_addr == pair.0 && r.secondary_image_len == pair.1,
            None => r.secondary_image_addr == 0 && r.secondary_image_len == 0,
        },
{
    let (secondary_image_addr, secondary_image_len) = match secondary_image {
        Some(pair) => pair,
        None => (0u64, 0u64),
    };
    BootInfo {
        graphic,
        memory_map,
        acpi_table_addr,
        smbios_table_addr,
        secondary_image_addr,
        secondary_image_len,
    }
}

/// Assemble the boot plan from the constructed hierarchy root, the entry
/// address the image parser found, and the boot info.
pub fn build_boot_plan(page_table_root: u64, entry_point: u64, info: BootInfo) -> (r: BootPlan)
    ensures
        r.page_table_root == page_table_root,
        r.entry_point == entry_point,
        r.info == info,
{
    BootPlan { page_table_root, entry_point, info }
}

} // verus!
