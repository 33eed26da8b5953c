use bootloader::frames::FrameSource;
use bootloader::image::ImageFormatError;
use bootloader::loader::{load_image, LoadError};

fn put16(img: &mut Vec<u8>, off: usize, v: u16) {
    img[off..off + 2].copy_from_slice(&v.to_le_bytes());
}

fn put32(img: &mut Vec<u8>, off: usize, v: u32) {
    img[off..off + 4].copy_from_slice(&v.to_le_bytes());
}

fn put64(img: &mut Vec<u8>, off: usize, v: u64) {
    img[off..off + 8].copy_from_slice(&v.to_le_bytes());
}

fn build_elf(entry: u64, segs: &[(u64, u32, u64, Vec<u8>)]) -> Vec<u8> {
    let phnum = segs.len();
    let phoff = 64usize;
    let mut data_off = phoff + 56 * phnum;
    let mut img = vec![0u8; data_off];
    img[0] = 0x7f;
    img[1] = b'E';
    img[2] = b'L';
    img[3] = b'F';
    img[4] = 2;
    img[5] = 1;
    img[6] = 1;
    put16(&mut img, 18, 62);
    put64(&mut img, 24, entry);
    put64(&mut img, 32, phoff as u64);
    put16(&mut img, 54, 56);
    put16(&mut img, 56, phnum as u16);
    for (i, (vaddr, flags, mem_size, bytes)) in segs.iter().enumerate() {
        let ph = phoff + 56 * i;
        put32(&mut img, ph, 1);
        put32(&mut img, ph + 4, *flags);
        put64(&mut img, ph + 8, data_off as u64);
        put64(&mut img, ph + 16, *vaddr);
        put64(&mut img, ph + 32, bytes.len() as u64);
        put64(&mut img, ph + 40, *mem_size);
        img.extend_from_slice(bytes);
        data_off += bytes.len();
    }
    img
}

#[test]
fn single_segment_scenario() {
    // One segment: virtual start 0x1000, 16 file bytes, memory size 0x2000,
    // read+execute.  Exactly two frames, first 16 bytes from the source,
    // the remaining 0x1FF0 bytes zero, and the permission triple kept.
    let src: Vec<u8> = (1..=16).collect();
    let img = build_elf(0x1000, &[(0x1000, 5, 0x2000, src.clone())]);
    let mut fs = FrameSource::new(0x40_0000, 0x50_0000);
    let li = load_image(&img, &mut fs).unwrap();
    assert_eq!(li.entry, 0x1000);
    assert_eq!(li.segments.len(), 1);
    let ms = &li.segments[0];
    assert_eq!(ms.virtual_start, 0x1000);
    assert_eq!(ms.first_page, 1);
    assert_eq!(ms.page_count, 2);
    assert_eq!(ms.frames.len(), 2);
    assert_eq!(ms.frames[0].addr, 0x40_0000);
    assert_eq!(ms.frames[1].addr, 0x40_1000);
    assert_eq!(fs.next, 0x40_2000);
    assert!(ms.perms.read && ms.perms.execute && !ms.perms.write);
    assert_eq!(ms.data.len(), 0x2000);
    assert_eq!(&ms.data[..16], &src[..]);
    assert!(ms.data[16..].iter().all(|&b| b == 0));
}

#[test]
fn unaligned_segment_places_bytes_within_page() {
    // Virtual start 0x1010: the first 0x10 bytes of the buffer pad the head
    // of the page, then come the file bytes.
    let src = vec![0xAAu8, 0xBB, 0xCC];
    let img = build_elf(0, &[(0x1010, 6, 0x20, src.clone())]);
    let mut fs = FrameSource::new(0x10_0000, 0x20_0000);
    let li = load_image(&img, &mut fs).unwrap();
    let ms = &li.segments[0];
    assert_eq!(ms.first_page, 1);
    assert_eq!(ms.page_count, 1);
    assert!(ms.data[..0x10].iter().all(|&b| b == 0));
    assert_eq!(&ms.data[0x10..0x13], &src[..]);
    assert!(ms.data[0x13..].iter().all(|&b| b == 0));
}

#[test]
fn overlapping_segments_leak_no_frames() {
    // Virtual ranges [0x1000, 0x2000) and [0x1800, 0x2800) overlap: the
    // image is rejected before any frame is requested.
    let img = build_elf(
        0,
        &[(0x1000, 4, 0x1000, vec![1]), (0x1800, 4, 0x1000, vec![2])],
    );
    let mut fs = FrameSource::new(0x10_0000, 0x20_0000);
    let r = load_image(&img, &mut fs);
    assert_eq!(
        r.err().unwrap(),
        LoadError::Format(ImageFormatError::OverlappingSegments)
    );
    assert_eq!(fs.next, 0x10_0000);
}

#[test]
fn two_segments_use_distinct_frames() {
    let img = build_elf(
        0,
        &[
            (0x1000, 5, 0x1000, vec![1, 2]),
            (0x4000, 6, 0x1800, vec![3, 4, 5]),
        ],
    );
    let mut fs = FrameSource::new(0x80_0000, 0x90_0000);
    let li = load_image(&img, &mut fs).unwrap();
    assert_eq!(li.segments.len(), 2);
    assert_eq!(li.segments[0].frames.len(), 1);
    assert_eq!(li.segments[1].frames.len(), 2);
    let mut all: Vec<u64> = Vec::new();
    for ms in &li.segments {
        for f in &ms.frames {
            all.push(f.addr);
        }
    }
    let mut dedup = all.clone();
    dedup.sort();
    dedup.dedup();
    assert_eq!(dedup.len(), all.len());
}

#[test]
fn frame_exhaustion_reports_failure() {
    // Three pages needed, one frame available.
    let img = build_elf(0, &[(0x1000, 6, 0x3000, vec![1])]);
    let mut fs = FrameSource::new(0x10_0000, 0x10_1000);
    let r = load_image(&img, &mut fs);
    assert_eq!(r.err().unwrap(), LoadError::AllocationExhausted);
    // The source is drained, and failure was reported rather than a
    // partial load returned.
    assert_eq!(fs.next, fs.limit);
}
