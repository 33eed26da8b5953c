//! Physical frames and the frame source.
//!
//! A frame is a fixed-size, page-aligned unit of physical memory.  The frame
//! source adapts a single loader-owned physical region, obtained once from
//! the platform, into the narrow capability the rest of the loader needs:
//! "give me one more unused, page-aligned physical frame".  Allocation is
//! monotonic: no frame is ever returned twice, and nothing is freed before
//! handoff.

use vstd::prelude::*;

verus! {

/// A page-aligned physical frame base address.  A page, and so a frame, is
/// 4096 bytes.
#[derive(Clone, Copy, PartialEq, Eq, Structural, Debug)]
pub struct PhysFrame {
    pub addr: u64,
}

impl PhysFrame {
    /// A frame address is valid when it is page-aligned.
    pub open spec fn wf(self) -> bool {
        self.addr % 4096 == 0
    }
}

/// Hands out distinct page-aligned physical frames from one loader-owned
/// region `[next, limit)`, in ascending address order.  The ghost `given`
/// sequence records every frame handed out so far.
pub struct FrameSource {
    pub next: u64,
    pub limit: u64,
    pub given: Ghost<Seq<u64>>,
}

impl FrameSource {
    pub open spec fn wf(self) -> bool {
        &&& self.next % 4096 == 0
        &&& self.limit % 4096 == 0
        &&& self.next <= self.limit
        &&& forall|i: int|
            0 <= i < self.given@.len() ==> (#[trigger] self.given@[i]) < self.next
        &&& forall|i: int, j: int|
            0 <= i < j < self.given@.len() ==> self.given@[i] < self.given@[j]
        &&& forall|i: int| 0 <= i < self.given@.len() ==> (#[trigger] self.given@[i]) % 4096 == 0
    }

    /// How many frames are still available.
    pub open spec fn available(self) -> int {
        (self.limit - self.next) / 4096
    }

    /// Adopt one loader-owned physical region `[start, limit)` as the pool of
    /// frames.  The platform hands such a region out once; the source then
    /// carves it into frames.
    pub fn new(start: u64, limit: u64) -> (r: FrameSource)
        requires
            start % 4096 == 0,
            limit % 4096 == 0,
            start <= limit,
        ensures
            r.wf(),
            r.next == start,
            r.limit == limit,
            r.given@ == Seq::<u64>::empty(),
    {
        FrameSource { next: start, limit, given: Ghost(Seq::empty()) }
    }

    /// Hand out one more frame, distinct from every frame handed out before,
    /// or report exhaustion.  Exhaustion is fatal to a boot attempt: there is
    /// no fallback allocator.
    pub fn allocate_frame(&mut self) -> (r: Option<PhysFrame>)
        requires
            old(self).wf(),
        ensures
            final(self).wf(),
            final(self).limit == old(self).limit,
            old(self).next == old(self).limit ==> r is None && *final(self) == *old(self),
            old(self).next < old(self).limit ==> {
                &&& r matches Some(f)
                &&& f.addr == old(self).next
                &&& f.wf()
                &&& final(self).next == old(self).next + 4096
                &&& final(self).given@ == old(self).given@.push(f.addr)
            },
    {
        if self.next == self.limit {
            None
        } else {
            let f = PhysFrame { addr: self.next };
            proof {
                self.given@ = self.given@.push(f.addr);
            }
            self.next = self.next + 4096;
            Some(f)
        }
    }
}

/// Two frame sources hold the same state.
pub open spec fn fs_unchanged(a: FrameSource, b: FrameSource) -> bool {
    a.next == b.next && a.limit == b.limit && a.given@ == b.given@
}

/// A well-formed source's region is exactly `available()` whole frames.
pub proof fn lemma_available_exact(fs: FrameSource)
    requires
        fs.wf(),
    ensures
        fs.limit - fs.next == 4096 * fs.available(),
        fs.available() >= 0,
{
    let d = fs.limit - fs.next;
    assert(d % 4096 == 0 && d == 4096 * (d / 4096) && d / 4096 >= 0) by (nonlinear_arith)
        requires
            fs.next % 4096 == 0,
            fs.limit % 4096 == 0,
            fs.next <= fs.limit,
            d == fs.limit - fs.next,
    ;
}

/// Handing out one frame lowers `available()` by exactly one.
pub proof fn lemma_available_step(a: FrameSource, b: FrameSource)
    requires
        a.wf(),
        b.wf(),
        b.limit == a.limit,
        b.next == a.next + 4096,
    ensures
        b.available() == a.available() - 1,
{
    lemma_available_exact(a);
    lemma_available_exact(b);
    assert(b.available() == a.available() - 1) by (nonlinear_arith)
        requires
            a.limit - a.next == 4096 * a.available(),
            b.limit - b.next == 4096 * b.available(),
            b.limit == a.limit,
            b.next == a.next + 4096,
    ;
}

/// Law: allocation is monotonic and never repeats a frame.  Every two frames
/// the source has handed out at different times are distinct.
pub proof fn lemma_frames_never_reused(fs: FrameSource, i: int, j: int)
    requires
        fs.wf(),
        0 <= i < fs.given@.len(),
        0 <= j < fs.given@.len(),
        i != j,
    ensures
        fs.given@[i] != fs.given@[j],
{
}

} // verus!
