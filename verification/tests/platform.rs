use bootloader::frames::FrameSource;
use bootloader::handoff::{build_boot_info, build_boot_plan, GraphicInfo};
use bootloader::memory_map::Region;
use bootloader::platform::{
    pages_needed, revision_supported, select_mode, snapshot_buffer_size, ModeResolution,
};

#[test]
fn revision_gate() {
    assert!(revision_supported(2, 30));
    assert!(revision_supported(3, 70));
    assert!(!revision_supported(1, 99));
    assert!(!revision_supported(2, 29));
}

#[test]
fn pages_for_file_sizes() {
    assert_eq!(pages_needed(0), 1);
    assert_eq!(pages_needed(1), 1);
    assert_eq!(pages_needed(4095), 1);
    assert_eq!(pages_needed(4096), 2);
    assert_eq!(pages_needed(0x2345), 0x2345 / 4096 + 1);
}

#[test]
fn snapshot_buffer_is_doubled() {
    assert_eq!(snapshot_buffer_size(0x400), 0x800);
    assert_eq!(snapshot_buffer_size(0), 0);
}

#[test]
fn first_matching_mode_is_selected() {
    let modes = vec![
        ModeResolution { width: 640, height: 480 },
        ModeResolution { width: 1024, height: 768 },
        ModeResolution { width: 1024, height: 768 },
    ];
    assert_eq!(select_mode(&modes, ModeResolution { width: 1024, height: 768 }), Some(1));
    assert_eq!(select_mode(&modes, ModeResolution { width: 800, height: 600 }), None);
}

#[test]
fn boot_info_carries_fields_unmodified() {
    let g = GraphicInfo { width: 1024, height: 768, frame_buffer_addr: 0xE000_0000, frame_buffer_size: 0x30_0000 };
    let map = vec![Region { start: 0, pages: 16, tag: 1 }];
    let info = build_boot_info(g, map, 0xFEED_0000, 0xBEEF_0000, Some((0x900_0000, 0x1234)));
    assert_eq!(info.graphic, g);
    assert_eq!(info.memory_map.len(), 1);
    assert_eq!(info.acpi_table_addr, 0xFEED_0000);
    assert_eq!(info.smbios_table_addr, 0xBEEF_0000);
    assert_eq!(info.secondary_image_addr, 0x900_0000);
    assert_eq!(info.secondary_image_len, 0x1234);

    let none_info = build_boot_info(g, Vec::new(), 1, 2, None);
    assert_eq!(none_info.secondary_image_addr, 0);
    assert_eq!(none_info.secondary_image_len, 0);

    let plan = build_boot_plan(0x5000, 0xFFFF_8000_0010_0000, none_info);
    assert_eq!(plan.page_table_root, 0x5000);
    assert_eq!(plan.entry_point, 0xFFFF_8000_0010_0000);
}

#[test]
fn frame_source_hands_out_distinct_ascending_frames() {
    let mut fs = FrameSource::new(0x10_0000, 0x10_3000);
    let a = fs.allocate_frame().unwrap();
    let b = fs.allocate_frame().unwrap();
    let c = fs.allocate_frame().unwrap();
    assert_eq!(a.addr, 0x10_0000);
    assert_eq!(b.addr, 0x10_1000);
    assert_eq!(c.addr, 0x10_2000);
    assert!(a.addr != b.addr && b.addr != c.addr && a.addr != c.addr);
    assert!(fs.allocate_frame().is_none());
}
