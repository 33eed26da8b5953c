//! Parsing the kernel's executable image.
//!
//! The image is an immutable byte buffer in the 64-bit little-endian ELF
//! layout for the x86-64 architecture.  Parsing yields the entry virtual
//! address and, in header order, one descriptor per non-empty loadable
//! segment: virtual start, file offset, in-file size, in-memory size (the
//! excess over the file size is zero-filled) and a read/write/execute
//! permission triple.  Validation happens here, before any frame is
//! allocated: a bad signature, a wrong architecture, out-of-range segment
//! fields or overlapping segment page ranges are all rejected.

use vstd::prelude::*;

verus! {

/// A segment's requested access: the permission triple recorded unmodified
/// from the segment descriptor.
#[derive(Clone, Copy, PartialEq, Eq, Structural, Debug)]
pub struct Perms {
    pub read: bool,
    pub write: bool,
    pub execute: bool,
}

/// Why an image was rejected.  Every variant is fatal: a malformed image is
/// never partially loaded.
#[derive(Clone, Copy, PartialEq, Eq, Structural, Debug)]
pub enum ImageFormatError {
    /// The buffer is too short to hold an image header.
    TooShort,
    /// The format signature does not match.
    BadMagic,
    /// Not a 64-bit image.
    UnsupportedClass,
    /// Not a little-endian image.
    UnsupportedEndianness,
    /// Not built for the x86-64 architecture.
    UnsupportedMachine,
    /// The segment descriptor table is malformed or out of range.
    BadProgramHeaders,
    /// A loadable segment claims more file bytes than memory bytes.
    SegmentSizes,
    /// A loadable segment's file bytes lie outside the image buffer.
    SegmentBounds,
    /// A loadable segment's virtual range wraps the address space.
    SegmentAddressOverflow,
    /// Two loadable segments' page-aligned virtual ranges overlap.
    OverlappingSegments,
}

/// One non-empty loadable segment, as the descriptor table states it.
#[derive(Clone, Copy, PartialEq, Eq, Structural, Debug)]
pub struct Segment {
    pub vaddr: u64,
    pub offset: u64,
    pub file_size: u64,
    pub mem_size: u64,
    pub perms: Perms,
}

/// The parsed image: entry virtual address and the non-empty loadable
/// segments in header order.
pub struct ParsedImage {
    pub entry: u64,
    pub segments: Vec<Segment>,
}

/// The little-endian integer held in `b[off .. off + 2]`.
pub open spec fn le16(b: Seq<u8>, off: int) -> int {
    b[off] + 0x100 * b[off + 1]
}

/// The little-endian integer held in `b[off .. off + 4]`.
pub open spec fn le32(b: Seq<u8>, off: int) -> int {
    le16(b, off) + 0x1_0000 * le16(b, off + 2)
}

/// The little-endian integer held in `b[off .. off + 8]`.
pub open spec fn le64(b: Seq<u8>, off: int) -> int {
    le32(b, off) + 0x1_0000_0000 * le32(b, off + 4)
}

fn read_u16(b: &Vec<u8>, off: usize) -> (r: u16)
    requires
        off + 2 <= b@.len(),
    ensures
        r == le16(b@, off as int),
{
    let n = b.len();
    assert(off + 2 <= n);
    b[off] as u16 + 0x100u16 * (b[off + 1] as u16)
}

fn read_u32(b: &Vec<u8>, off: usize) -> (r: u32)
    requires
        off + 4 <= b@.len(),
    ensures
        r == le32(b@, off as int),
{
    let n = b.len();
    assert(off + 4 <= n);
    read_u16(b, off) as u32 + 0x1_0000u32 * (read_u16(b, off + 2) as u32)
}

fn read_u64(b: &Vec<u8>, off: usize) -> (r: u64)
    requires
        off + 8 <= b@.len(),
    ensures
        r == le64(b@, off as int),
{
    let n = b.len();
    assert(off + 8 <= n);
    read_u32(b, off) as u64 + 0x1_0000_0000u64 * (read_u32(b, off + 4) as u64)
}

/// Entry virtual address stated by the header.
pub open spec fn spec_entry(b: Seq<u8>) -> int {
    le64(b, 24)
}

/// Offset of the segment descriptor table.
pub open spec fn spec_phoff(b: Seq<u8>) -> int {
    le64(b, 32)
}

/// Number of segment descriptors.
pub open spec fn spec_phnum(b: Seq<u8>) -> int {
    le16(b, 56)
}

/// A well-formed header: long enough, right signature, 64-bit little-endian
/// x86-64, descriptor entries of the expected size, and the whole descriptor
/// table inside the buffer.
pub open spec fn spec_header_ok(b: Seq<u8>) -> bool {
    &&& b.len() >= 64
    &&& b[0] == 0x7f && b[1] == 0x45 && b[2] == 0x4c && b[3] == 0x46
    &&& b[4] == 2
    &&& b[5] == 1
    &&& le16(b, 18) == 62
    &&& le16(b, 54) == 56
    &&& spec_phoff(b) + 56 * spec_phnum(b) <= b.len()
}

/// Start of descriptor `i` within the buffer.
pub open spec fn ph_base(b: Seq<u8>, i: int) -> int {
    spec_phoff(b) + 56 * i
}

pub open spec fn spec_ph_type(b: Seq<u8>, i: int) -> int {
    le32(b, ph_base(b, i))
}

pub open spec fn spec_ph_flags(b: Seq<u8>, i: int) -> int {
    le32(b, ph_base(b, i) + 4)
}

pub open spec fn spec_ph_offset(b: Seq<u8>, i: int) -> int {
    le64(b, ph_base(b, i) + 8)
}

pub open spec fn spec_ph_vaddr(b: Seq<u8>, i: int) -> int {
    le64(b, ph_base(b, i) + 16)
}

pub open spec fn spec_ph_filesz(b: Seq<u8>, i: int) -> int {
    le64(b, ph_base(b, i) + 32)
}

pub open spec fn spec_ph_memsz(b: Seq<u8>, i: int) -> int {
    le64(b, ph_base(b, i) + 40)
}

/// Descriptor `i` names a segment the loader must place: a loadable segment
/// with a non-zero memory size.  Empty loadable segments are skipped: no
/// mapping, no frames.
pub open spec fn spec_loadable(b: Seq<u8>, i: int) -> bool {
    spec_ph_type(b, i) == 1 && spec_ph_memsz(b, i) > 0
}

/// The permission triple encoded in a descriptor's flag word.
pub open spec fn spec_perms_of(flags: int) -> Perms {
    Perms { read: (flags / 4) % 2 == 1, write: (flags / 2) % 2 == 1, execute: flags % 2 == 1 }
}

/// The segment stated by descriptor `i`.
pub open spec fn spec_segment(b: Seq<u8>, i: int) -> Segment {
    Segment {
        vaddr: spec_ph_vaddr(b, i) as u64,
        offset: spec_ph_offset(b, i) as u64,
        file_size: spec_ph_filesz(b, i) as u64,
        mem_size: spec_ph_memsz(b, i) as u64,
        perms: spec_perms_of(spec_ph_flags(b, i)),
    }
}

/// Descriptor `i`'s fields are in range: no more file bytes than memory
/// bytes, file bytes inside the buffer, and a virtual range whose
/// page-aligned end still fits the address space.
pub open spec fn spec_seg_fields_ok(b: Seq<u8>, i: int) -> bool {
    &&& spec_ph_filesz(b, i) <= spec_ph_memsz(b, i)
    &&& spec_ph_offset(b, i) + spec_ph_filesz(b, i) <= b.len()
    &&& spec_ph_vaddr(b, i) + spec_ph_memsz(b, i) + 4095 <= u64::MAX
}

/// First page of the page-aligned virtual range covering the segment.
pub open spec fn seg_first_page(s: Segment) -> int {
    s.vaddr as int / 4096
}

/// First page past the page-aligned virtual range covering the segment.
pub open spec fn seg_end_page(s: Segment) -> int {
    (s.vaddr + s.mem_size + 4095) / 4096
}

/// How many pages the segment's page-aligned virtual range covers.
pub open spec fn seg_page_count(s: Segment) -> int {
    seg_end_page(s) - seg_first_page(s)
}

/// No two segments' page-aligned virtual ranges overlap.
pub open spec fn segs_disjoint(segs: Seq<Segment>) -> bool {
    forall|i: int, j: int|
        0 <= i < j < segs.len() ==> seg_end_page(#[trigger] segs[i]) <= seg_first_page(
            #[trigger] segs[j],
        ) || seg_end_page(segs[j]) <= seg_first_page(segs[i])
}

/// The non-empty loadable segments among the first `n` descriptors, in
/// header order.
pub open spec fn spec_segments_up_to(b: Seq<u8>, n: int) -> Seq<Segment>
    decreases n,
{
    if n <= 0 {
        Seq::empty()
    } else if spec_loadable(b, n - 1) {
        spec_segments_up_to(b, n - 1).push(spec_segment(b, n - 1))
    } else {
        spec_segments_up_to(b, n - 1)
    }
}

/// All non-empty loadable segments of the image, in header order.
pub open spec fn spec_segments(b: Seq<u8>) -> Seq<Segment> {
    spec_segments_up_to(b, spec_phnum(b))
}

/// Every non-empty loadable descriptor has in-range fields.
pub open spec fn spec_segs_ok(b: Seq<u8>) -> bool {
    forall|i: int|
        0 <= i < spec_phnum(b) && #[trigger] spec_loadable(b, i) ==> spec_seg_fields_ok(b, i)
}

/// The image is acceptable: well-formed header, in-range segment fields, and
/// pairwise disjoint page-aligned segment ranges.
pub open spec fn spec_image_ok(b: Seq<u8>) -> bool {
    spec_header_ok(b) && spec_segs_ok(b) && segs_disjoint(spec_segments(b))
}

/// What validation guarantees of every parsed segment: no more file bytes
/// than memory bytes, file bytes inside the image, a page-aligned virtual
/// range that does not wrap the address space, and at least one byte to map.
pub open spec fn spec_seg_ok(s: Segment, img_len: int) -> bool {
    &&& s.file_size <= s.mem_size
    &&& s.offset + s.file_size <= img_len
    &&& s.vaddr + s.mem_size + 4095 <= u64::MAX
    &&& s.mem_size >= 1
}

/// Every segment among the first `n` descriptors of a validated image is
/// in range.
pub proof fn lemma_segments_ok(b: Seq<u8>, n: int)
    requires
        spec_segs_ok(b),
        0 <= n <= spec_phnum(b),
    ensures
        forall|k: int|
            0 <= k < spec_segments_up_to(b, n).len() ==> spec_seg_ok(
                #[trigger] spec_segments_up_to(b, n)[k],
                b.len() as int,
            ),
    decreases n,
{
    if n > 0 {
        lemma_segments_ok(b, n - 1);
        assert forall|k: int| 0 <= k < spec_segments_up_to(b, n).len() implies spec_seg_ok(
            #[trigger] spec_segments_up_to(b, n)[k],
            b.len() as int,
        ) by {
            if spec_loadable(b, n - 1) && k == spec_segments_up_to(b, n).len() - 1 {
                assert(spec_loadable(b, n - 1));
                assert(spec_seg_fields_ok(b, n - 1));
                assert(spec_segments_up_to(b, n)[k] == spec_segment(b, n - 1));
            } else {
                assert(spec_segments_up_to(b, n)[k] == spec_segments_up_to(b, n - 1)[k]);
            }
        }
    }
}

/// Parse the image header and its segment descriptor table.
///
/// Succeeds exactly on acceptable images, and then returns the header's
/// entry address together with every non-empty loadable segment, in header
/// order, with the descriptor's fields unmodified.  Each rejection names
/// what was wrong; validation completes before any memory is touched.
pub fn parse_image(b: &Vec<u8>) -> (r: Result<ParsedImage, ImageFormatError>)
    ensures
        r is Ok <==> spec_image_ok(b@),
        r matches Ok(pi) ==> {
            &&& pi.entry == spec_entry(b@)
            &&& pi.segments@ == spec_segments(b@)
        },
        r == Err::<ParsedImage, _>(ImageFormatError::TooShort) <==> b@.len() < 64,
        r == Err::<ParsedImage, _>(ImageFormatError::BadMagic) ==> b@.len() >= 64 && !(b@[0]
            == 0x7f && b@[1] == 0x45 && b@[2] == 0x4c && b@[3] == 0x46),
        r == Err::<ParsedImage, _>(ImageFormatError::UnsupportedClass) ==> b@.len() >= 64 && b@[4]
            != 2,
        r == Err::<ParsedImage, _>(ImageFormatError::UnsupportedEndianness) ==> b@.len() >= 64
            && b@[5] != 1,
        r == Err::<ParsedImage, _>(ImageFormatError::UnsupportedMachine) ==> b@.len() >= 64 && le16(
            b@,
            18,
        ) != 62,
        r == Err::<ParsedImage, _>(ImageFormatError::BadProgramHeaders) ==> b@.len() >= 64 && (le16(
            b@,
            54,
        ) != 56 || spec_phoff(b@) + 56 * spec_phnum(b@) > b@.len()),
        r == Err::<ParsedImage, _>(ImageFormatError::OverlappingSegments) ==> spec_header_ok(b@)
            && spec_segs_ok(b@) && !segs_disjoint(spec_segments(b@)),
        r == Err::<ParsedImage, _>(ImageFormatError::SegmentSizes) ==> exists|i: int|
            0 <= i < spec_phnum(b@) && #[trigger] spec_loadable(b@, i) && spec_ph_filesz(b@, i)
                > spec_ph_memsz(b@, i),
        r == Err::<ParsedImage, _>(ImageFormatError::SegmentBounds) ==> exists|i: int|
            0 <= i < spec_phnum(b@) && #[trigger] spec_loadable(b@, i) && spec_ph_offset(b@, i)
                + spec_ph_filesz(b@, i) > b@.len(),
        r == Err::<ParsedImage, _>(ImageFormatError::SegmentAddressOverflow) ==> exists|i: int|
            0 <= i < spec_phnum(b@) && #[trigger] spec_loadable(b@, i) && spec_ph_vaddr(b@, i)
                + spec_ph_memsz(b@, i) + 4095 > u64::MAX,
{
    if b.len() < 64 {
        return Err(ImageFormatError::TooShort);
    }
    if !(b[0] == 0x7f && b[1] == 0x45 && b[2] == 0x4c && b[3] == 0x46) {
        return Err(ImageFormatError::BadMagic);
    }
    if b[4] != 2 {
        return Err(ImageFormatError::UnsupportedClass);
    }
    if b[5] != 1 {
        return Err(ImageFormatError::UnsupportedEndianness);
    }
    if read_u16(b, 18) != 62 {
        return Err(ImageFormatError::UnsupportedMachine);
    }
    if read_u16(b, 54) != 56 {
        return Err(ImageFormatError::BadProgramHeaders);
    }
    let phoff = read_u64(b, 32);
    let phnum = read_u16(b, 56);
    let len64 = b.len() as u64;
    if phoff > len64 || 56u64 * (phnum as u64) > len64 - phoff {
        return Err(ImageFormatError::BadProgramHeaders);
    }
    let entry = read_u64(b, 24);

    let mut segs: Vec<Segment> = Vec::new();
    let mut i: u16 = 0;
    while i < phnum
        invariant
            spec_header_ok(b@),
            b@.len() <= usize::MAX,
            phoff == spec_phoff(b@),
            phnum == spec_phnum(b@),
            len64 == b@.len(),
            0 <= i <= phnum,
            segs@ == spec_segments_up_to(b@, i as int),
            forall|k: int|
                0 <= k < i && #[trigger] spec_loadable(b@, k) ==> spec_seg_fields_ok(b@, k),
            forall|s: int|
                0 <= s < segs@.len() ==> (#[trigger] segs@[s]).vaddr + segs@[s].mem_size + 4095
                    <= u64::MAX,
        decreases phnum - i,
    {
        proof {
            assert(56 * (i as int) < 56 * spec_phnum(b@)) by (nonlinear_arith)
                requires i < phnum, phnum == spec_phnum(b@);
            assert(56 * (i as int) + 56 <= 56 * spec_phnum(b@)) by (nonlinear_arith)
                requires i < phnum, phnum == spec_phnum(b@);
        }
        let base = phoff + 56u64 * (i as u64);
        proof {
            assert(base + 56 <= b@.len());
            assert(base <= usize::MAX);
        }
        let base_us = base as usize;
        let ptype = read_u32(b, base_us);
        let memsz = read_u64(b, base_us + 40);
        if ptype == 1 && memsz > 0 {
            let flags = read_u32(b, base_us + 4);
            let offset = read_u64(b, base_us + 8);
            let vaddr = read_u64(b, base_us + 16);
            let filesz = read_u64(b, base_us + 32);
            proof {
                assert(base as int == ph_base(b@, i as int));
                assert(spec_loadable(b@, i as int));
            }
            if filesz > memsz {
                proof {
                    assert(!spec_seg_fields_ok(b@, i as int));
                    assert(!spec_segs_ok(b@));
                }
                return Err(ImageFormatError::SegmentSizes);
            }
            if offset > len64 || filesz > len64 - offset {
                proof {
                    assert(!spec_seg_fields_ok(b@, i as int));
                    assert(!spec_segs_ok(b@));
                }
                return Err(ImageFormatError::SegmentBounds);
            }
            if vaddr > u64::MAX - 4095 || memsz > u64::MAX - 4095 - vaddr {
                proof {
                    assert(!spec_seg_fields_ok(b@, i as int));
                    assert(!spec_segs_ok(b@));
                }
                return Err(ImageFormatError::SegmentAddressOverflow);
            }
            let perms = Perms {
                read: (flags / 4) % 2 == 1,
                write: (flags / 2) % 2 == 1,
                execute: flags % 2 == 1,
            };
            segs.push(Segment { vaddr, offset, file_size: filesz, mem_size: memsz, perms });
            proof {
                assert(segs@ =~= spec_segments_up_to(b@, i as int + 1));
            }
        } else {
            proof {
                assert(segs@ =~= spec_segments_up_to(b@, i as int + 1));
            }
        }
        i = i + 1;
    }

    let n = segs.len();
    let mut x: usize = 0;
    while x < n
        invariant
            n == segs@.len(),
            spec_header_ok(b@),
            spec_segs_ok(b@),
            segs@ == spec_segments(b@),
            0 <= x <= n,
            forall|s: int|
                0 <= s < segs@.len() ==> (#[trigger] segs@[s]).vaddr + segs@[s].mem_size + 4095
                    <= u64::MAX,
            forall|p: int, q: int|
                0 <= p < x && p < q < segs@.len() ==> seg_end_page(#[trigger] segs@[p])
                    <= seg_first_page(#[trigger] segs@[q]) || seg_end_page(segs@[q])
                    <= seg_first_page(segs@[p]),
        decreases n - x,
    {
        let sx = segs[x];
        let first_x = sx.vaddr / 4096;
        let end_x = (sx.vaddr + sx.mem_size + 4095) / 4096;
        let mut y: usize = x + 1;
        while y < n
            invariant
                n == segs@.len(),
                spec_header_ok(b@),
                spec_segs_ok(b@),
                segs@ == spec_segments(b@),
                0 <= x < n,
                x < y <= n,
                sx == segs@[x as int],
                first_x == seg_first_page(segs@[x as int]),
                end_x == seg_end_page(segs@[x as int]),
                forall|s: int|
                    0 <= s < segs@.len() ==> (#[trigger] segs@[s]).vaddr + segs@[s].mem_size + 4095
                        <= u64::MAX,
                forall|q: int|
                    x < q < y ==> seg_end_page(segs@[x as int]) <= seg_first_page(
                        #[trigger] segs@[q],
                    ) || seg_end_page(segs@[q]) <= seg_first_page(segs@[x as int]),
            decreases n - y,
        {
            let sy = segs[y];
            let first_y = sy.vaddr / 4096;
            let end_y = (sy.vaddr + sy.mem_size + 4095) / 4096;
            if !(end_x <= first_y || end_y <= first_x) {
                proof {
                    assert(!(seg_end_page(segs@[x as int]) <= seg_first_page(segs@[y as int])
                        || seg_end_page(segs@[y as int]) <= seg_first_page(segs@[x as int])));
                    assert(!segs_disjoint(spec_segments(b@)));
                }
                return Err(ImageFormatError::OverlappingSegments);
            }
            y = y + 1;
        }
        x = x + 1;
    }

    Ok(ParsedImage { entry, segments: segs })
}

} // verus!
