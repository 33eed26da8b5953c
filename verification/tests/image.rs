use bootloader::image::{parse_image, ImageFormatError};

fn put16(img: &mut Vec<u8>, off: usize, v: u16) {
    img[off..off + 2].copy_from_slice(&v.to_le_bytes());
}

fn put32(img: &mut Vec<u8>, off: usize, v: u32) {
    img[off..off + 4].copy_from_slice(&v.to_le_bytes());
}

fn put64(img: &mut Vec<u8>, off: usize, v: u64) {
    img[off..off + 8].copy_from_slice(&v.to_le_bytes());
}

/// Build a minimal 64-bit little-endian x86-64 image: the header, one
/// descriptor per segment `(vaddr, flags, mem_size, file bytes)`, and the
/// file bytes packed after the descriptor table.
fn build_elf(entry: u64, segs: &[(u64, u32, u64, Vec<u8>)]) -> Vec<u8> {
    let phnum = segs.len();
    let phoff = 64usize;
    let mut data_off = phoff + 56 * phnum;
    let mut img = vec![0u8; data_off];
    img[0] = 0x7f;
    img[1] = b'E';
    img[2] = b'L';
    img[3] = b'F';
    img[4] = 2; // 64-bit
    img[5] = 1; // little-endian
    img[6] = 1;
    put16(&mut img, 18, 62); // x86-64
    put64(&mut img, 24, entry);
    put64(&mut img, 32, phoff as u64);
    put16(&mut img, 54, 56);
    put16(&mut img, 56, phnum as u16);
    for (i, (vaddr, flags, mem_size, bytes)) in segs.iter().enumerate() {
        let ph = phoff + 56 * i;
        put32(&mut img, ph, 1); // loadable
        put32(&mut img, ph + 4, *flags);
        put64(&mut img, ph + 8, data_off as u64);
        put64(&mut img, ph + 16, *vaddr);
        put64(&mut img, ph + 32, bytes.len() as u64);
        put64(&mut img, ph + 40, *mem_size);
        img.extend_from_slice(bytes);
        data_off += bytes.len();
    }
    img
}

#[test]
fn parse_single_segment() {
    let img = build_elf(0x2000, &[(0x1000, 5, 0x2000, vec![1, 2, 3, 4])]);
    let parsed = parse_image(&img).unwrap();
    assert_eq!(parsed.entry, 0x2000);
    assert_eq!(parsed.segments.len(), 1);
    let s = parsed.segments[0];
    assert_eq!(s.vaddr, 0x1000);
    assert_eq!(s.file_size, 4);
    assert_eq!(s.mem_size, 0x2000);
    assert!(s.perms.read && s.perms.execute && !s.perms.write);
}

#[test]
fn empty_segment_is_skipped() {
    let img = build_elf(0, &[(0x1000, 6, 0x1000, vec![9]), (0x8000, 4, 0, vec![])]);
    let parsed = parse_image(&img).unwrap();
    assert_eq!(parsed.segments.len(), 1);
    assert!(parsed.segments[0].perms.write);
}

#[test]
fn too_short_rejected() {
    let img = vec![0u8; 10];
    assert_eq!(parse_image(&img).err(), Some(ImageFormatError::TooShort));
}

#[test]
fn bad_magic_rejected() {
    let img = vec![0u8; 64];
    assert_eq!(parse_image(&img).err(), Some(ImageFormatError::BadMagic));
}

#[test]
fn wrong_class_rejected() {
    let mut img = build_elf(0, &[]);
    img[4] = 1;
    assert_eq!(parse_image(&img).err(), Some(ImageFormatError::UnsupportedClass));
}

#[test]
fn wrong_endianness_rejected() {
    let mut img = build_elf(0, &[]);
    img[5] = 2;
    assert_eq!(parse_image(&img).err(), Some(ImageFormatError::UnsupportedEndianness));
}

#[test]
fn wrong_machine_rejected() {
    let mut img = build_elf(0, &[]);
    put16(&mut img, 18, 40);
    assert_eq!(parse_image(&img).err(), Some(ImageFormatError::UnsupportedMachine));
}

#[test]
fn bad_descriptor_size_rejected() {
    let mut img = build_elf(0, &[]);
    put16(&mut img, 54, 64);
    assert_eq!(parse_image(&img).err(), Some(ImageFormatError::BadProgramHeaders));
}

#[test]
fn descriptor_table_out_of_range_rejected() {
    let mut img = build_elf(0, &[]);
    put64(&mut img, 32, 0x10_0000);
    assert_eq!(parse_image(&img).err(), Some(ImageFormatError::BadProgramHeaders));
}

#[test]
fn file_size_beyond_mem_size_rejected() {
    // Four file bytes but a declared memory size of two.
    let img = build_elf(0, &[(0x1000, 4, 2, vec![1, 2, 3, 4])]);
    assert_eq!(parse_image(&img).err(), Some(ImageFormatError::SegmentSizes));
}

#[test]
fn file_bytes_outside_buffer_rejected() {
    let mut img = build_elf(0, &[(0x1000, 4, 0x1000, vec![1, 2, 3, 4])]);
    put64(&mut img, 64 + 8, 0xFFFF_0000);
    assert_eq!(parse_image(&img).err(), Some(ImageFormatError::SegmentBounds));
}

#[test]
fn wrapping_virtual_range_rejected() {
    let img = build_elf(0, &[(u64::MAX - 100, 4, 0x1000, vec![1])]);
    assert_eq!(parse_image(&img).err(), Some(ImageFormatError::SegmentAddressOverflow));
}

#[test]
fn overlapping_segments_rejected() {
    let img = build_elf(
        0,
        &[(0x1000, 4, 0x1000, vec![1]), (0x1800, 4, 0x1000, vec![2])],
    );
    assert_eq!(parse_image(&img).err(), Some(ImageFormatError::OverlappingSegments));
}
