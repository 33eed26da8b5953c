//! The memory map harvester's computation.
//!
//! The firmware reports physical memory as an ordered sequence of regions;
//! querying it is a platform call that stays outside the library.  What the
//! loader derives from the snapshot is verified here: the highest physical
//! address in use, clamped to a fixed floor so that later mapping code never
//! under-covers low hardware-mapped ranges (for instance the IOAPIC MMIO
//! area) even on machines that report little memory.

use vstd::prelude::*;

verus! {

/// Lowest value `max_physical_address` may return: the minimum physical span
/// required for fixed platform I/O.
pub const PHYSICAL_SPAN_FLOOR: u64 = 0x1_0000_0000;

/// One firmware-reported physical region: start address, length in pages,
/// and the firmware's type/usage tag.  A snapshot is a read-only sequence of
/// these and is never mutated by the loader.
#[derive(Clone, Copy, PartialEq, Eq, Structural, Debug)]
pub struct Region {
    pub start: u64,
    pub pages: u64,
    pub tag: u32,
}

/// First address past the region: `start + pages * 4096`.
pub open spec fn region_end(r: Region) -> int {
    r.start + r.pages * 4096
}

/// The highest region end across the snapshot, clamped to the floor.
pub open spec fn spec_max_physical_address(rs: Seq<Region>) -> int
    decreases rs.len(),
{
    if rs.len() == 0 {
        PHYSICAL_SPAN_FLOOR as int
    } else {
        let rest = spec_max_physical_address(rs.drop_last());
        if region_end(rs.last()) > rest {
            region_end(rs.last())
        } else {
            rest
        }
    }
}

/// Derive the highest physical address in use from a memory map snapshot:
/// the maximum of every region's `start + pages * 4096`, and never less than
/// the fixed floor.  The snapshot itself is left untouched.
pub fn max_physical_address(regions: &Vec<Region>) -> (r: u64)
    requires
        forall|i: int|
            0 <= i < regions@.len() ==> region_end(#[trigger] regions@[i]) <= u64::MAX,
    ensures
        r == spec_max_physical_address(regions@),
{
    let mut best: u64 = PHYSICAL_SPAN_FLOOR;
    let mut i: usize = 0;
    while i < regions.len()
        invariant
            0 <= i <= regions@.len(),
            forall|k: int|
                0 <= k < regions@.len() ==> region_end(#[trigger] regions@[k]) <= u64::MAX,
            best == spec_max_physical_address(regions@.take(i as int)),
        decreases regions@.len() - i,
    {
        let rg = regions[i];
        let end = rg.start + rg.pages * 4096;
        if end > best {
            best = end;
        }
        proof {
            assert(regions@.take(i + 1).drop_last() =~= regions@.take(i as int));
            assert(regions@.take(i + 1).last() == regions@[i as int]);
        }
        i = i + 1;
    }
    proof {
        assert(regions@.take(regions@.len() as int) =~= regions@);
    }
    best
}

/// Law: the derived boundary covers every reported region and the floor, and
/// is no larger than needed: it is the floor or the end of some region.
pub proof fn lemma_max_physical_address_bounds(rs: Seq<Region>)
    ensures
        spec_max_physical_address(rs) >= PHYSICAL_SPAN_FLOOR,
        forall|i: int| 0 <= i < rs.len() ==> region_end(#[trigger] rs[i]) <= spec_max_physical_address(rs),
        spec_max_physical_address(rs) == PHYSICAL_SPAN_FLOOR || exists|i: int|
            0 <= i < rs.len() && region_end(#[trigger] rs[i]) == spec_max_physical_address(rs),
    decreases rs.len(),
{
    if rs.len() > 0 {
        lemma_max_physical_address_bounds(rs.drop_last());
        assert forall|i: int| 0 <= i < rs.len() implies region_end(#[trigger] rs[i])
            <= spec_max_physical_address(rs) by {
            if i < rs.len() - 1 {
                assert(rs.drop_last()[i] == rs[i]);
            } else {
                assert(rs.last() == rs[i]);
            }
        }
        if spec_max_physical_address(rs) != PHYSICAL_SPAN_FLOOR {
            if region_end(rs.last()) > spec_max_physical_address(rs.drop_last()) {
                assert(region_end(rs[rs.len() - 1]) == spec_max_physical_address(rs));
            } else {
                let i = choose|i: int|
                    0 <= i < rs.drop_last().len() && region_end(#[trigger] rs.drop_last()[i])
                        == spec_max_physical_address(rs.drop_last());
                assert(rs.drop_last()[i] == rs[i]);
            }
        }
    }
}

/// Law: re-running the harvest on the same snapshot yields the same value;
/// the boundary is a pure function of the reported regions.
pub proof fn lemma_max_physical_address_idempotent(a: u64, b: u64, rs: Seq<Region>)
    requires
        a == spec_max_physical_address(rs),
        b == spec_max_physical_address(rs),
    ensures
        a == b,
{
}

} // verus!
