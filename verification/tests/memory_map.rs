use bootloader::memory_map::{max_physical_address, Region, PHYSICAL_SPAN_FLOOR};

#[test]
fn small_map_is_clamped_to_floor() {
    // One region of 16 pages ends at 0x10000, far below the floor.
    let regions = vec![Region { start: 0, pages: 16, tag: 7 }];
    assert_eq!(max_physical_address(&regions), PHYSICAL_SPAN_FLOOR);
    assert_ne!(max_physical_address(&regions), 0x10000);
}

#[test]
fn empty_map_yields_floor() {
    let regions: Vec<Region> = Vec::new();
    assert_eq!(max_physical_address(&regions), 0x1_0000_0000);
}

#[test]
fn large_region_end_wins() {
    let regions = vec![
        Region { start: 0, pages: 16, tag: 0 },
        Region { start: 0x2_0000_0000, pages: 0x100, tag: 1 },
        Region { start: 0x1000, pages: 4, tag: 2 },
    ];
    // 0x2_0000_0000 + 0x100 * 0x1000 = 0x2_0010_0000.
    assert_eq!(max_physical_address(&regions), 0x2_0010_0000);
}

#[test]
fn region_ending_exactly_at_floor() {
    let regions = vec![Region { start: 0xFFFF_F000, pages: 1, tag: 0 }];
    assert_eq!(max_physical_address(&regions), PHYSICAL_SPAN_FLOOR);
}

#[test]
fn harvest_is_idempotent_on_same_snapshot() {
    let regions = vec![
        Region { start: 0x9_0000_0000, pages: 123, tag: 3 },
        Region { start: 0, pages: 1, tag: 4 },
    ];
    let first = max_physical_address(&regions);
    let second = max_physical_address(&regions);
    assert_eq!(first, second);
    assert_eq!(first, 0x9_0000_0000 + 123 * 4096);
}
