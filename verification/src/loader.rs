//! The image loader: materializing each segment's physical backing.
//!
//! For each non-empty loadable segment, in header order, the loader computes
//! the page-aligned virtual range covering `[vaddr, vaddr + mem_size)`,
//! requests one frame per page from the frame source in ascending address
//! order, and lays out the bytes each page must hold: the segment's file
//! bytes at their place within the range, zero everywhere else.  Validation
//! happens before the first frame is requested, so a rejected image consumes
//! nothing; frame exhaustion is reported and never left looking like
//! success.

use vstd::prelude::*;
use crate::frames::{FrameSource, PhysFrame};
use crate::image::{
    parse_image, spec_image_ok, spec_segments, spec_entry, spec_seg_ok, lemma_segments_ok,
    spec_header_ok, spec_segs_ok, segs_disjoint, seg_first_page, seg_end_page, seg_page_count,
    Segment, Perms, ImageFormatError,
};

verus! {

/// Why loading failed: the image was rejected, or the platform ran out of
/// physical frames.  Both are fatal to the boot attempt.
#[derive(Clone, Copy, PartialEq, Eq, Structural, Debug)]
pub enum LoadError {
    Format(ImageFormatError),
    AllocationExhausted,
}

/// One loaded segment: its page-aligned virtual range, the permission
/// triple recorded unmodified from the descriptor, one physical frame per
/// page, and the bytes each page holds (`data[k * 4096 .. (k + 1) * 4096]`
/// belongs to the page backed by `frames[k]`).
pub struct MappedSegment {
    pub virtual_start: u64,
    pub first_page: u64,
    pub page_count: u64,
    pub perms: Perms,
    pub frames: Vec<PhysFrame>,
    pub data: Vec<u8>,
}

impl MappedSegment {
    pub open spec fn wf(self) -> bool {
        &&& self.frames@.len() == self.page_count
        &&& self.data@.len() == self.page_count * 4096
        &&& forall|k: int| 0 <= k < self.frames@.len() ==> (#[trigger] self.frames@[k]).wf()
    }
}

/// The loader's result: the entry address and one mapped segment per
/// non-empty loadable segment, in header order.
pub struct LoadedImage {
    pub entry: u64,
    pub segments: Vec<MappedSegment>,
}

/// Total pages over all segments' page-aligned ranges.
pub open spec fn spec_total_pages(segs: Seq<Segment>) -> int
    decreases segs.len(),
{
    if segs.len() == 0 {
        0
    } else {
        spec_total_pages(segs.drop_last()) + seg_page_count(segs.last())
    }
}

/// Pages covered by the segments before index `i`.
pub open spec fn spec_pages_before(segs: Seq<Segment>, i: int) -> int {
    spec_total_pages(segs.take(i))
}

/// The byte at offset `off` within a segment's page-aligned buffer: one of
/// the segment's file bytes at its place within the range, zero in the head
/// padding, the zero-filled tail `[file_size, mem_size)`, and the tail of
/// the last page.
pub open spec fn seg_byte(img: Seq<u8>, s: Segment, off: int) -> u8 {
    let head = s.vaddr as int % 4096;
    if head <= off < head + s.file_size {
        img[s.offset + (off - head)]
    } else {
        0u8
    }
}

/// How `ms` materializes segment `s`: same range and permissions, frames at
/// consecutive addresses from `frame_base` (one per page, in ascending page
/// order), and the buffer bytes as `seg_byte` states them.
pub open spec fn seg_loaded(img: Seq<u8>, s: Segment, ms: MappedSegment, frame_base: int) -> bool {
    &&& ms.wf()
    &&& ms.virtual_start == s.vaddr
    &&& ms.first_page == seg_first_page(s)
    &&& ms.page_count == seg_page_count(s)
    &&& ms.perms == s.perms
    &&& forall|k: int|
        0 <= k < ms.frames@.len() ==> (#[trigger] ms.frames@[k]).addr == frame_base + 4096 * k
    &&& forall|off: int| 0 <= off < ms.data@.len() ==> ms.data@[off] == seg_byte(img, s, off)
}

/// An in-range segment covers at least one page, its page-aligned range
/// fits the machine word, and its bytes lie within that range.
pub(crate) proof fn lemma_seg_pages(s: Segment)
    requires
        s.vaddr + s.mem_size + 4095 <= u64::MAX,
        s.mem_size >= 1,
    ensures
        1 <= seg_page_count(s),
        seg_first_page(s) * 4096 <= s.vaddr < seg_first_page(s) * 4096 + 4096,
        seg_first_page(s) * 4096 + (s.vaddr as int % 4096) == s.vaddr,
        seg_end_page(s) * 4096 >= s.vaddr + s.mem_size,
        seg_end_page(s) * 4096 <= u64::MAX,
        seg_page_count(s) * 4096 >= (s.vaddr as int % 4096) + s.mem_size,
        seg_page_count(s) * 4096 <= u64::MAX,
{
    let v = s.vaddr as int;
    let m = s.mem_size as int;
    let e = v + m + 4095;
    vstd::arithmetic::div_mod::lemma_fundamental_div_mod(v, 4096);
    vstd::arithmetic::div_mod::lemma_mod_division_less_than_divisor(v, 4096);
    vstd::arithmetic::div_mod::lemma_fundamental_div_mod(e, 4096);
    vstd::arithmetic::div_mod::lemma_mod_division_less_than_divisor(e, 4096);
    assert(v == 4096 * (v / 4096) + v % 4096 && 0 <= v % 4096 < 4096);
    assert(e == 4096 * (e / 4096) + e % 4096 && 0 <= e % 4096 < 4096);
    assert(seg_page_count(s) * 4096 == 4096 * (e / 4096) - 4096 * (v / 4096));
    assert(seg_page_count(s) * 4096 >= v % 4096 + m);
    let c = seg_page_count(s);
    assert(c >= 1) by {
        if c <= 0 {
            assert(c * 4096 <= 0);
        }
    }
}

/// Load a kernel image: parse and validate it, then materialize every
/// segment's backing.
///
/// Succeeds exactly on acceptable images whose total page count fits the
/// frames still available; a rejected image consumes no frames at all, and
/// exhaustion drains the source and reports failure.  On success the
/// segments correspond one-to-one, in header order, to the image's
/// non-empty loadable segments; segment `i` is backed by the consecutive
/// frames starting `spec_pages_before(.., i)` pages past the first frame
/// the source handed out.
pub fn load_image(img: &Vec<u8>, fs: &mut FrameSource) -> (r: Result<LoadedImage, LoadError>)
    requires
        old(fs).wf(),
    ensures
        final(fs).wf(),
        final(fs).limit == old(fs).limit,
        final(fs).next >= old(fs).next,
        r is Ok <==> spec_image_ok(img@) && spec_total_pages(spec_segments(img@)) <= old(
            fs,
        ).available(),
        r matches Err(LoadError::Format(_)) ==> !spec_image_ok(img@) && *final(fs) == *old(fs),
        r == Err::<LoadedImage, _>(LoadError::Format(ImageFormatError::OverlappingSegments))
            ==> spec_header_ok(img@) && spec_segs_ok(img@) && !segs_disjoint(spec_segments(img@)),
        r == Err::<LoadedImage, _>(LoadError::AllocationExhausted) ==> spec_image_ok(img@)
            && spec_total_pages(spec_segments(img@)) > old(fs).available() && final(fs).next
            == final(fs).limit,
        r matches Ok(li) ==> {
            &&& li.entry == spec_entry(img@)
            &&& li.segments@.len() == spec_segments(img@).len()
            &&& forall|i: int|
                0 <= i < li.segments@.len() ==> seg_loaded(
                    img@,
                    spec_segments(img@)[i],
                    #[trigger] li.segments@[i],
                    old(fs).next + 4096 * spec_pages_before(spec_segments(img@), i),
                )
            &&& final(fs).next == old(fs).next + 4096 * spec_total_pages(spec_segments(img@))
        },
{
    let parsed = match parse_image(img) {
        Ok(p) => p,
        Err(e) => {
            return Err(LoadError::Format(e));
        },
    };
    let ghost all = spec_segments(img@);
    proof {
        lemma_segments_ok(img@, crate::image::spec_phnum(img@));
        assert forall|k: int| 0 <= k < all.len() implies seg_page_count(#[trigger] all[k])
            >= 1 by {
            lemma_seg_pages(all[k]);
        }
        assert(all.take(0) =~= Seq::<Segment>::empty());
    }
    let img_len = img.len();
    proof {
        assert(img@.len() == img_len);
    }
    let n = parsed.segments.len();
    let mut out: Vec<MappedSegment> = Vec::new();
    let mut i: usize = 0;
    while i < n
        invariant
            old(fs).wf(),
            fs.wf(),
            fs.limit == old(fs).limit,
            spec_image_ok(img@),
            all == spec_segments(img@),
            parsed.segments@ == all,
            n == all.len(),
            img@.len() <= usize::MAX,
            forall|k: int| 0 <= k < n ==> spec_seg_ok(#[trigger] all[k], img@.len() as int),
            forall|k: int| 0 <= k < n ==> seg_page_count(#[trigger] all[k]) >= 1,
            0 <= i <= n,
            0 <= spec_pages_before(all, i as int),
            fs.next == old(fs).next + 4096 * spec_pages_before(all, i as int),
            out@.len() == i,
            forall|k: int|
                0 <= k < i ==> seg_loaded(
                    img@,
                    all[k],
                    #[trigger] out@[k],
                    old(fs).next + 4096 * spec_pages_before(all, k),
                ),
        decreases n - i,
    {
        proof {
            lemma_pages_before_bounds(all, i as int);
            lemma_seg_pages(all[i as int]);
        }
        let ghost seg_base = fs.next as int;
        let s = parsed.segments[i];
        let first = s.vaddr / 4096;
        let end = (s.vaddr + s.mem_size + 4095) / 4096;
        let count = end - first;
        let mut frames: Vec<PhysFrame> = Vec::new();
        let mut k: u64 = 0;
        while k < count
            invariant
                old(fs).wf(),
                fs.wf(),
                fs.limit == old(fs).limit,
                all == spec_segments(img@),
                spec_image_ok(img@),
                0 <= i < all.len(),
                s == all[i as int],
                spec_seg_ok(s, img@.len() as int),
                forall|t: int| 0 <= t < all.len() ==> seg_page_count(#[trigger] all[t]) >= 1,
                count == seg_page_count(s),
                seg_base == old(fs).next + 4096 * spec_pages_before(all, i as int),
                0 <= spec_pages_before(all, i as int),
                0 <= k <= count,
                fs.next == seg_base + 4096 * k,
                frames@.len() == k,
                forall|t: int|
                    0 <= t < k ==> (#[trigger] frames@[t]).addr == seg_base + 4096 * t,
                forall|t: int| 0 <= t < k ==> (#[trigger] frames@[t]).wf(),
            decreases count - k,
        {
            match fs.allocate_frame() {
                Some(f) => {
                    frames.push(f);
                },
                None => {
                    proof {
                        lemma_pages_before_le_total(all, i as int);
                        let pb = spec_pages_before(all, i as int);
                        let avail = old(fs).available();
                        let gap = old(fs).limit - old(fs).next;
                        assert(fs.next == fs.limit);
                        assert(gap == 4096 * (pb + k));
                        assert(avail == pb + k) by (nonlinear_arith)
                            requires
                                avail == gap / 4096,
                                gap == 4096 * (pb + k),
                        ;
                        assert(spec_total_pages(all) > old(fs).available());
                    }
                    return Err(LoadError::AllocationExhausted);
                },
            }
            k = k + 1;
        }
        let head = s.vaddr % 4096;
        let total_bytes = count * 4096;
        let mut data: Vec<u8> = Vec::new();
        let mut off: u64 = 0;
        while off < total_bytes
            invariant
                all == spec_segments(img@),
                0 <= i < all.len(),
                s == all[i as int],
                spec_seg_ok(s, img@.len() as int),
                img@.len() <= usize::MAX,
                count == seg_page_count(s),
                total_bytes == count * 4096,
                head == s.vaddr as int % 4096,
                head + s.file_size <= total_bytes,
                0 <= off <= total_bytes,
                data@.len() == off,
                forall|t: int| 0 <= t < off ==> data@[t] == seg_byte(img@, s, t),
            decreases total_bytes - off,
        {
            let byte: u8 = if off >= head && off - head < s.file_size {
                let src = s.offset + (off - head);
                proof {
                    assert(src < img@.len());
                }
                img[src as usize]
            } else {
                0u8
            };
            data.push(byte);
            off = off + 1;
        }
        out.push(
            MappedSegment {
                virtual_start: s.vaddr,
                first_page: first,
                page_count: count,
                perms: s.perms,
                frames,
                data,
            },
        );
        proof {
            lemma_pages_before_step(all, i as int);
        }
        i = i + 1;
    }
    proof {
        assert(all.take(n as int) =~= all);
        lemma_total_le_available(all, *old(fs), *fs);
    }
    Ok(LoadedImage { entry: parsed.entry, segments: out })
}

proof fn lemma_pages_before_step(segs: Seq<Segment>, i: int)
    requires
        0 <= i < segs.len(),
    ensures
        spec_pages_before(segs, i + 1) == spec_pages_before(segs, i) + seg_page_count(segs[i]),
{
    assert(segs.take(i + 1).drop_last() =~= segs.take(i));
    assert(segs.take(i + 1).last() == segs[i]);
}

proof fn lemma_pages_before_bounds(segs: Seq<Segment>, i: int)
    requires
        0 <= i <= segs.len(),
        forall|k: int| 0 <= k < segs.len() ==> seg_page_count(#[trigger] segs[k]) >= 1,
    ensures
        spec_pages_before(segs, i) >= 0,
    decreases i,
{
    if i > 0 {
        lemma_pages_before_bounds(segs, i - 1);
        lemma_pages_before_step(segs, i - 1);
    }
}

/// The whole image needs at least as many pages as any prefix plus its next
/// segment.
proof fn lemma_pages_before_le_total(segs: Seq<Segment>, i: int)
    requires
        0 <= i < segs.len(),
        forall|k: int| 0 <= k < segs.len() ==> seg_page_count(#[trigger] segs[k]) >= 1,
    ensures
        spec_total_pages(segs) >= spec_pages_before(segs, i) + seg_page_count(segs[i]),
    decreases segs.len() - i,
{
    lemma_pages_before_step(segs, i);
    if i + 1 == segs.len() {
        assert(segs.take(segs.len() as int) =~= segs);
    } else {
        lemma_pages_before_le_total_from(segs, i + 1);
    }
}

proof fn lemma_pages_before_le_total_from(segs: Seq<Segment>, j: int)
    requires
        0 <= j <= segs.len(),
        forall|k: int| 0 <= k < segs.len() ==> seg_page_count(#[trigger] segs[k]) >= 1,
    ensures
        spec_total_pages(segs) >= spec_pages_before(segs, j),
    decreases segs.len() - j,
{
    if j == segs.len() {
        assert(segs.take(segs.len() as int) =~= segs);
    } else {
        lemma_pages_before_step(segs, j);
        lemma_pages_before_le_total_from(segs, j + 1);
    }
}

proof fn lemma_total_le_available(segs: Seq<Segment>, before: FrameSource, after: FrameSource)
    requires
        before.wf(),
        after.wf(),
        after.limit == before.limit,
        after.next == before.next + 4096 * spec_total_pages(segs),
    ensures
        spec_total_pages(segs) <= before.available(),
{
    assert(spec_total_pages(segs) <= (before.limit - before.next) / 4096) by (nonlinear_arith)
        requires
            before.next + 4096 * spec_total_pages(segs) <= before.limit,
    ;
}

/// Law: the loader's frames never alias.  Frames handed to different pages,
/// of the same segment or of different ones, are pairwise distinct; together
/// with each segment's one-frame-per-page correspondence this says the
/// allocated frames cover exactly the union of the page-aligned segment
/// ranges, with no sharing.
pub proof fn lemma_frames_no_alias(
    img: Seq<u8>,
    segs: Seq<Segment>,
    loaded: Seq<MappedSegment>,
    base: int,
    i: int,
    k: int,
    j: int,
    l: int,
)
    requires
        loaded.len() == segs.len(),
        forall|t: int| 0 <= t < segs.len() ==> seg_page_count(#[trigger] segs[t]) >= 1,
        forall|t: int|
            0 <= t < loaded.len() ==> seg_loaded(
                img,
                segs[t],
                #[trigger] loaded[t],
                base + 4096 * spec_pages_before(segs, t),
            ),
        0 <= i < loaded.len(),
        0 <= j < loaded.len(),
        0 <= k < loaded[i].frames@.len(),
        0 <= l < loaded[j].frames@.len(),
        (i, k) != (j, l),
    ensures
        loaded[i].frames@[k].addr != loaded[j].frames@[l].addr,
{
    if i == j {
        assert(loaded[i].frames@[k].addr == base + 4096 * spec_pages_before(segs, i) + 4096 * k);
        assert(loaded[j].frames@[l].addr == base + 4096 * spec_pages_before(segs, j) + 4096 * l);
    } else {
        let (a, ka, b_, kb) = if i < j {
            (i, k, j, l)
        } else {
            (j, l, i, k)
        };
        lemma_pages_before_le_from(segs, a, b_);
        assert(loaded[a].frames@[ka].addr == base + 4096 * spec_pages_before(segs, a) + 4096 * ka);
        assert(loaded[b_].frames@[kb].addr == base + 4096 * spec_pages_before(segs, b_) + 4096
            * kb);
        assert(spec_pages_before(segs, a) + ka < spec_pages_before(segs, b_) + kb);
    }
}

/// The running page total grows by at least each intervening segment's page
/// count.
proof fn lemma_pages_before_le_from(segs: Seq<Segment>, a: int, b: int)
    requires
        0 <= a < b <= segs.len(),
        forall|k: int| 0 <= k < segs.len() ==> seg_page_count(#[trigger] segs[k]) >= 1,
    ensures
        spec_pages_before(segs, a) + seg_page_count(segs[a]) <= spec_pages_before(segs, b),
    decreases b - a,
{
    lemma_pages_before_step(segs, a);
    if a + 1 < b {
        lemma_pages_before_le_from(segs, a + 1, b);
    }
}

/// Law: a loaded segment's buffer holds the segment's file bytes and
/// nothing else.  Within the page-aligned buffer, the byte at `head + t`
/// (where `head` is the segment's offset within its first page) equals
/// source byte `t` for `t` in `[0, file_size)`, and every other byte —
/// head padding, the zero-filled `[file_size, mem_size)` tail, and the
/// remainder of the last page — is zero.
pub proof fn lemma_segment_bytes(img: Seq<u8>, s: Segment, ms: MappedSegment, frame_base: int)
    requires
        seg_loaded(img, s, ms, frame_base),
        spec_seg_ok(s, img.len() as int),
    ensures
        forall|t: int|
            s.offset <= t < s.offset + s.file_size ==> ms.data@[s.vaddr as int % 4096 + t
                - s.offset] == #[trigger] img[t],
        forall|t: int|
            0 <= t < ms.data@.len() && !(s.vaddr as int % 4096 <= t < s.vaddr as int % 4096
                + s.file_size) ==> #[trigger] ms.data@[t] == 0,
{
    lemma_seg_pages(s);
    let head = s.vaddr as int % 4096;
    assert forall|t: int| s.offset <= t < s.offset + s.file_size implies ms.data@[head + t
        - s.offset] == #[trigger] img[t] by {
        assert(head + (t - s.offset) < ms.data@.len());
        assert(ms.data@[head + (t - s.offset)] == seg_byte(img, s, head + (t - s.offset)));
    }
    assert forall|t: int|
        0 <= t < ms.data@.len() && !(head <= t < head + s.file_size) implies #[trigger] ms.data@[t]
        == 0 by {
        assert(ms.data@[t] == seg_byte(img, s, t));
    }
}

} // verus!
