use bootloader::frames::{FrameSource, PhysFrame};
use bootloader::image::Perms;
use bootloader::loader::MappedSegment;
use bootloader::paging::{frame_flags, install, MappingError, PageTable};

fn seg(vaddr: u64, frames: Vec<u64>, perms: Perms) -> MappedSegment {
    let page_count = frames.len() as u64;
    MappedSegment {
        virtual_start: vaddr,
        first_page: vaddr / 4096,
        page_count,
        perms,
        frames: frames.into_iter().map(|addr| PhysFrame { addr }).collect(),
        data: vec![0u8; (page_count * 4096) as usize],
    }
}

#[test]
fn adopt_resolves_nothing() {
    let pt = PageTable::adopt(0x1000);
    assert_eq!(pt.translate(0), None);
    assert_eq!(pt.translate(1), None);
    assert_eq!(pt.translate(0xFFFF_FFFF), None);
}

#[test]
fn install_maps_every_page_with_translated_flags() {
    let mut pt = PageTable::adopt(0x1000);
    let mut fs = FrameSource::new(0x20_0000, 0x40_0000);
    let rx = Perms { read: true, write: false, execute: true };
    let rw = Perms { read: true, write: true, execute: false };
    let segs = vec![
        seg(0x1000, vec![0x10_0000, 0x10_1000], rx),
        seg(0x8000, vec![0x10_4000], rw),
    ];
    assert_eq!(install(&mut pt, &segs, &mut fs), Ok(()));

    let (f0, fl0) = pt.translate(1).unwrap();
    assert_eq!(f0, 0x10_0000);
    assert!(!fl0.writable && fl0.executable);
    let (f1, fl1) = pt.translate(2).unwrap();
    assert_eq!(f1, 0x10_1000);
    assert!(!fl1.writable && fl1.executable);
    let (f2, fl2) = pt.translate(8).unwrap();
    assert_eq!(f2, 0x10_4000);
    assert!(fl2.writable && !fl2.executable);

    // A page outside every segment still resolves to nothing.
    assert_eq!(pt.translate(3), None);
    assert_eq!(pt.translate(0x123456), None);
    assert_eq!(frame_flags(rx).writable, false);
    assert_eq!(frame_flags(rw).writable, true);
}

#[test]
fn high_half_pages_are_mapped() {
    // A kernel placed in the upper half of the canonical address space:
    // virtual address 0xFFFF_8000_0000_0000, page number has high bits set.
    let mut pt = PageTable::adopt(0x1000);
    let mut fs = FrameSource::new(0x20_0000, 0x40_0000);
    let rx = Perms { read: true, write: false, execute: true };
    let page = 0xFFFF_8000_0000_0000u64 / 4096;
    let segs = vec![seg(0xFFFF_8000_0000_0000, vec![0x30_0000], rx)];
    assert_eq!(install(&mut pt, &segs, &mut fs), Ok(()));
    let (f, fl) = pt.translate(page).unwrap();
    assert_eq!(f, 0x30_0000);
    assert!(fl.executable);
}

#[test]
fn double_mapping_a_page_is_rejected() {
    let mut pt = PageTable::adopt(0x1000);
    let mut fs = FrameSource::new(0x20_0000, 0x40_0000);
    let rw = Perms { read: true, write: true, execute: false };
    // Two segments claim the same page with different frames: a loader
    // invariant violation, caught rather than silently overwritten.
    let segs = vec![
        seg(0x1000, vec![0x10_0000], rw),
        seg(0x1000, vec![0x10_1000], rw),
    ];
    assert_eq!(install(&mut pt, &segs, &mut fs), Err(MappingError::AlreadyMapped));
}

#[test]
fn reinstalling_same_frame_is_permitted() {
    let mut pt = PageTable::adopt(0x1000);
    let mut fs = FrameSource::new(0x20_0000, 0x40_0000);
    let rw = Perms { read: true, write: true, execute: false };
    let segs = vec![seg(0x2000, vec![0x10_0000], rw)];
    assert_eq!(install(&mut pt, &segs, &mut fs), Ok(()));
    // The same page onto the same frame is an overwrite, not a conflict.
    assert_eq!(install(&mut pt, &segs, &mut fs), Ok(()));
    let (f, _) = pt.translate(2).unwrap();
    assert_eq!(f, 0x10_0000);
}

#[test]
fn node_exhaustion_reports_failure() {
    let mut pt = PageTable::adopt(0x1000);
    // No frames at all: the first missing intermediate node cannot be
    // allocated, and the construction reports failure instead of
    // pretending success.
    let mut fs = FrameSource::new(0x20_0000, 0x20_0000);
    let rw = Perms { read: true, write: true, execute: false };
    let segs = vec![seg(0x1000, vec![0x10_0000], rw)];
    assert_eq!(install(&mut pt, &segs, &mut fs), Err(MappingError::FrameExhausted));
    assert_eq!(pt.translate(1), None);
}
