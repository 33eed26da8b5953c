//! The address-space constructor: a four-level page-table hierarchy.
//!
//! The hierarchy is a radix tree of 512-entry nodes rooted in node 0.  The
//! model keeps every node's entries in one flat vector (`node t`'s entry `b`
//! at position `t * 512 + b`); a vacant entry models a zeroed hardware
//! entry, a table entry links one level down, and a page entry maps a
//! virtual page to a physical frame with its permission flags.  Installing
//! a mapping walks from the root, allocates any missing intermediate node
//! from the frame source (fresh nodes start vacant, modeling the required
//! zero-initialization before linking), and writes the leaf entry.  A leaf
//! that already points to a different frame aborts the construction: such a
//! conflict means a loader invariant was violated, and overwriting it
//! silently could mask the corruption until the kernel runs.

use vstd::prelude::*;
use vstd::pervasive::VecAdditionalExecFns;
use crate::frames::FrameSource;
use crate::image::Perms;
use crate::loader::MappedSegment;

verus! {

/// Leaf permission flags: a mapping is always readable; it is writable or
/// executable only when the segment asked for it.
#[derive(Clone, Copy, PartialEq, Eq, Structural, Debug)]
pub struct PageFlags {
    pub writable: bool,
    pub executable: bool,
}

/// The flags a segment's permission triple translates to: writable iff the
/// segment requests write access, executable iff it requests execute
/// access (on hardware with an explicit no-execute control, everything else
/// is marked no-execute).
pub open spec fn spec_frame_flags(p: Perms) -> PageFlags {
    PageFlags { writable: p.write, executable: p.execute }
}

pub fn frame_flags(p: Perms) -> (r: PageFlags)
    ensures
        r == spec_frame_flags(p),
{
    PageFlags { writable: p.write, executable: p.execute }
}

/// One node entry.
#[derive(Clone, Copy, PartialEq, Eq, Structural, Debug)]
pub enum Entry {
    /// Unused; models a zeroed hardware entry.
    Vacant,
    /// Link to the node one level down.
    Table(usize),
    /// Leaf: the frame backing one virtual page, with its flags.
    Page(u64, PageFlags),
}

/// Why construction failed.  Both variants abort the whole boot attempt:
/// there is no partial-success mode.
#[derive(Clone, Copy, PartialEq, Eq, Structural, Debug)]
pub enum MappingError {
    /// The frame source ran dry while allocating an intermediate node.
    FrameExhausted,
    /// A leaf entry already points to a different frame.
    AlreadyMapped,
}

/// Index of page `p`'s entry within a level-4, -3, -2 or -1 node.
pub open spec fn l4_index(p: u64) -> int {
    ((p as int) / 0x800_0000) % 512
}

pub open spec fn l3_index(p: u64) -> int {
    ((p as int) / 0x4_0000) % 512
}

pub open spec fn l2_index(p: u64) -> int {
    ((p as int) / 512) % 512
}

pub open spec fn l1_index(p: u64) -> int {
    (p as int) % 512
}

/// Two pages resolve through the same entries at every level.
pub open spec fn same_slot(p: u64, q: u64) -> bool {
    &&& l4_index(p) == l4_index(q)
    &&& l3_index(p) == l3_index(q)
    &&& l2_index(p) == l2_index(q)
    &&& l1_index(p) == l1_index(q)
}

/// Entry `b` of node `a` in the flat table.
pub open spec fn cell_i(t: Seq<Entry>, a: int, b: int) -> Entry {
    t[a * 512 + b]
}

/// Whether an entry links one level down.
pub open spec fn is_link(e: Entry) -> bool {
    e matches Entry::Table(_)
}

/// The node a link entry points to.
pub open spec fn link_of(e: Entry) -> usize {
    match e {
        Entry::Table(j) => j,
        _ => 0,
    }
}

/// A well-formed hierarchy: node 0 is the level-4 root; every link points
/// to an existing non-root node one level down, links leave only nodes of
/// level 2 and above, and no node has two parents.
pub open spec fn wf_table(t: Seq<Entry>, lv: Seq<int>, nc: int) -> bool {
    &&& t.len() == 512 * nc
    &&& 1 <= nc
    &&& lv.len() == nc
    &&& lv[0] == 4
    &&& forall|a: int, b: int|
        0 <= a < nc && 0 <= b < 512 && is_link(#[trigger] cell_i(t, a, b)) ==> {
            let j = link_of(cell_i(t, a, b)) as int;
            1 <= j < nc && lv[j] == lv[a] - 1 && lv[a] >= 2
        }
    &&& forall|a: int, b: int, a2: int, b2: int|
        0 <= a < nc && 0 <= b < 512 && 0 <= a2 < nc && 0 <= b2 < 512 && is_link(
            #[trigger] cell_i(t, a, b),
        ) && is_link(#[trigger] cell_i(t, a2, b2)) && link_of(cell_i(t, a, b)) == link_of(
            cell_i(t, a2, b2),
        ) ==> a == a2 && b == b2
}

/// What page `p` resolves to: walk the four levels from the root; a vacant
/// entry, a leaf above level 1 or a link at level 1 resolves nothing.
pub open spec fn spec_resolve(t: Seq<Entry>, p: u64) -> Option<(u64, PageFlags)> {
    match cell_i(t, 0, l4_index(p)) {
        Entry::Table(n3) => match cell_i(t, n3 as int, l3_index(p)) {
            Entry::Table(n2) => match cell_i(t, n2 as int, l2_index(p)) {
                Entry::Table(n1) => match cell_i(t, n1 as int, l1_index(p)) {
                    Entry::Page(f, fl) => Some((f, fl)),
                    _ => None,
                },
                _ => None,
            },
            _ => None,
        },
        _ => None,
    }
}

/// Whether installing `p -> f` can go through: the walk meets only links
/// and vacant entries, and the leaf is vacant or already holds `f` itself.
pub open spec fn spec_can_install(t: Seq<Entry>, p: u64, f: u64) -> bool {
    match cell_i(t, 0, l4_index(p)) {
        Entry::Vacant => true,
        Entry::Page(_, _) => false,
        Entry::Table(n3) => match cell_i(t, n3 as int, l3_index(p)) {
            Entry::Vacant => true,
            Entry::Page(_, _) => false,
            Entry::Table(n2) => match cell_i(t, n2 as int, l2_index(p)) {
                Entry::Vacant => true,
                Entry::Page(_, _) => false,
                Entry::Table(n1) => match cell_i(t, n1 as int, l1_index(p)) {
                    Entry::Vacant => true,
                    Entry::Page(g, _) => g == f,
                    Entry::Table(_) => false,
                },
            },
        },
    }
}

/// The adopted page-table hierarchy.  `levels` is the ghost level of each
/// node; `node_frames` records the physical frame backing each node.
pub struct PageTable {
    pub root_frame: u64,
    pub table: Vec<Entry>,
    pub node_count: usize,
    pub node_frames: Vec<u64>,
    pub levels: Ghost<Seq<int>>,
}

impl PageTable {
    pub open spec fn wf(self) -> bool {
        &&& wf_table(self.table@, self.levels@, self.node_count as int)
        &&& self.node_frames@.len() == self.node_count
    }
}

/// Every level index is an in-range node-entry index.
pub proof fn lemma_index_bounds(p: u64)
    ensures
        0 <= l4_index(p) < 512,
        0 <= l3_index(p) < 512,
        0 <= l2_index(p) < 512,
        0 <= l1_index(p) < 512,
{
    vstd::arithmetic::div_mod::lemma_mod_division_less_than_divisor((p as int) / 0x800_0000, 512);
    vstd::arithmetic::div_mod::lemma_mod_division_less_than_divisor((p as int) / 0x4_0000, 512);
    vstd::arithmetic::div_mod::lemma_mod_division_less_than_divisor((p as int) / 512, 512);
    vstd::arithmetic::div_mod::lemma_mod_division_less_than_divisor(p as int, 512);
}

/// Distinct in-range (node, entry) pairs have distinct flat positions.
proof fn lemma_cells_distinct(a: int, b: int, a2: int, b2: int)
    requires
        0 <= b < 512,
        0 <= b2 < 512,
    ensures
        (a * 512 + b == a2 * 512 + b2) <==> (a == a2 && b == b2),
{
    assert((a * 512 + b == a2 * 512 + b2) <==> (a == a2 && b == b2)) by (nonlinear_arith)
        requires
            0 <= b < 512,
            0 <= b2 < 512,
    ;
}

/// A cell of an in-range node lies within the flat table.
proof fn lemma_cell_in_range(a: int, b: int, nc: int)
    requires
        0 <= a < nc,
        0 <= b < 512,
    ensures
        0 <= a * 512 + b < 512 * nc,
{
    assert(0 <= a * 512 + b < 512 * nc) by (nonlinear_arith)
        requires
            0 <= a < nc,
            0 <= b < 512,
    ;
}

impl PageTable {
    /// Take over the active hierarchy rooted at `root_frame`.
    ///
    /// Precondition of the real machine step: the hierarchy is the one
    /// active on the executing core and hardware write-protection has been
    /// relaxed, so its nodes are mutable.  From here on the model tracks
    /// exactly the mappings this loader installs; the firmware's own
    /// mappings are left untouched beneath it.  After adoption nothing
    /// resolves yet and any mapping can be installed.
    pub fn adopt(root_frame: u64) -> (pt: PageTable)
        requires
            root_frame % 4096 == 0,
        ensures
            pt.wf(),
            pt.root_frame == root_frame,
            pt.node_count == 1,
            forall|q: u64| spec_resolve(pt.table@, q) is None,
            forall|q: u64, g: u64| spec_can_install(pt.table@, q, g),
    {
        let table: Vec<Entry> = vec![Entry::Vacant; 512];
        let node_frames: Vec<u64> = vec![root_frame; 1];
        let ghost lv: Seq<int> = seq![4int];
        let pt = PageTable { root_frame, table, node_count: 1, node_frames, levels: Ghost(lv) };
        proof {
            assert forall|a: int, b: int|
                0 <= a < 1 && 0 <= b < 512 implies cell_i(pt.table@, a, b) == Entry::Vacant by {
                lemma_cell_in_range(a, b, 1);
            }
            assert forall|q: u64| spec_resolve(pt.table@, q) is None by {
                lemma_index_bounds(q);
                assert(cell_i(pt.table@, 0, l4_index(q)) == Entry::Vacant);
            }
            assert forall|q: u64, g: u64| spec_can_install(pt.table@, q, g) by {
                lemma_index_bounds(q);
                assert(cell_i(pt.table@, 0, l4_index(q)) == Entry::Vacant);
            }
        }
        pt
    }

    /// Read what page `p` resolves to in the constructed hierarchy.
    pub fn translate(&self, p: u64) -> (r: Option<(u64, PageFlags)>)
        requires
            self.wf(),
        ensures
            r == spec_resolve(self.table@, p),
    {
        proof {
            lemma_index_bounds(p);
        }
        let _len = self.table.len();
        let i4 = ((p / 0x800_0000) % 512) as usize;
        let i3 = ((p / 0x4_0000) % 512) as usize;
        let i2 = ((p / 512) % 512) as usize;
        let i1 = (p % 512) as usize;
        proof {
            lemma_cell_in_range(0, i4 as int, self.node_count as int);
        }
        let n3 = match self.table[i4] {
            Entry::Table(n3) => n3,
            _ => {
                return None;
            },
        };
        proof {
            lemma_cell_in_range(n3 as int, i3 as int, self.node_count as int);
        }
        let n2 = match self.table[n3 * 512 + i3] {
            Entry::Table(n2) => n2,
            _ => {
                return None;
            },
        };
        proof {
            lemma_cell_in_range(n2 as int, i2 as int, self.node_count as int);
        }
        let n1 = match self.table[n2 * 512 + i2] {
            Entry::Table(n1) => n1,
            _ => {
                return None;
            },
        };
        proof {
            lemma_cell_in_range(n1 as int, i1 as int, self.node_count as int);
        }
        match self.table[n1 * 512 + i1] {
            Entry::Page(f, fl) => Some((f, fl)),
            _ => None,
        }
    }
}

/// Two page tables hold the same state.
pub open spec fn pt_unchanged(a: PageTable, b: PageTable) -> bool {
    &&& a.table@ == b.table@
    &&& a.node_count == b.node_count
    &&& a.levels@ == b.levels@
    &&& a.node_frames@ == b.node_frames@
    &&& a.root_frame == b.root_frame
}

/// Linking a fresh, all-vacant node into a vacant entry of a node at level
/// 2 or above changes what no page resolves to, and whether no mapping can
/// be installed.
proof fn lemma_fresh_link_preserves(
    o: Seq<Entry>,
    n: Seq<Entry>,
    lv: Seq<int>,
    nc: int,
    t: int,
    idx: int,
    j: usize,
    q: u64,
    g: u64,
)
    requires
        wf_table(o, lv, nc),
        0 <= t < nc,
        0 <= idx < 512,
        lv[t] >= 2,
        j as int == nc,
        cell_i(o, t, idx) == Entry::Vacant,
        n.len() == 512 * (nc + 1),
        forall|a: int, b: int|
            0 <= a < nc && 0 <= b < 512 && !(a == t && b == idx) ==> #[trigger] cell_i(n, a, b)
                == cell_i(o, a, b),
        cell_i(n, t, idx) == Entry::Table(j),
        forall|b: int| 0 <= b < 512 ==> #[trigger] cell_i(n, j as int, b) == Entry::Vacant,
    ensures
        spec_resolve(n, q) == spec_resolve(o, q),
        spec_can_install(n, q, g) == spec_can_install(o, q, g),
{
    lemma_index_bounds(q);
    let i4 = l4_index(q);
    let i3 = l3_index(q);
    let i2 = l2_index(q);
    let i1 = l1_index(q);
    if t == 0 && idx == i4 {
        assert(cell_i(n, j as int, i3) == Entry::Vacant);
    } else {
        assert(cell_i(n, 0, i4) == cell_i(o, 0, i4));
        match cell_i(o, 0, i4) {
            Entry::Table(m3u) => {
                let m3 = m3u as int;
                assert(is_link(cell_i(o, 0, i4)));
                assert(1 <= m3 < nc && lv[m3] == 3);
                if m3 == t && idx == i3 {
                    assert(cell_i(n, j as int, i2) == Entry::Vacant);
                } else {
                    assert(cell_i(n, m3, i3) == cell_i(o, m3, i3));
                    match cell_i(o, m3, i3) {
                        Entry::Table(m2u) => {
                            let m2 = m2u as int;
                            assert(is_link(cell_i(o, m3, i3)));
                            assert(1 <= m2 < nc && lv[m2] == 2);
                            if m2 == t && idx == i2 {
                                assert(cell_i(n, j as int, i1) == Entry::Vacant);
                            } else {
                                assert(cell_i(n, m2, i2) == cell_i(o, m2, i2));
                                match cell_i(o, m2, i2) {
                                    Entry::Table(m1u) => {
                                        let m1 = m1u as int;
                                        assert(is_link(cell_i(o, m2, i2)));
                                        assert(1 <= m1 < nc && lv[m1] == 1);
                                        assert(m1 != t);
                                        assert(cell_i(n, m1, i1) == cell_i(o, m1, i1));
                                    },
                                    _ => {},
                                }
                            }
                        },
                        _ => {},
                    }
                }
            },
            _ => {},
        }
    }
}

/// Writing page `p`'s leaf entry leaves every page of a different slot
/// resolving exactly as before, and installable exactly as before.
proof fn lemma_leaf_set_preserves(
    o: Seq<Entry>,
    n: Seq<Entry>,
    lv: Seq<int>,
    nc: int,
    p: u64,
    n3: usize,
    n2: usize,
    n1: usize,
    q: u64,
    g: u64,
)
    requires
        wf_table(o, lv, nc),
        cell_i(o, 0, l4_index(p)) == Entry::Table(n3),
        cell_i(o, n3 as int, l3_index(p)) == Entry::Table(n2),
        cell_i(o, n2 as int, l2_index(p)) == Entry::Table(n1),
        (n3 as int) < nc,
        (n2 as int) < nc,
        (n1 as int) < nc,
        n.len() == o.len(),
        forall|a: int, b: int|
            0 <= a < nc && 0 <= b < 512 && !(a == n1 as int && b == l1_index(p))
                ==> #[trigger] cell_i(n, a, b) == cell_i(o, a, b),
        !same_slot(p, q),
    ensures
        spec_resolve(n, q) == spec_resolve(o, q),
        spec_can_install(n, q, g) == spec_can_install(o, q, g),
{
    lemma_index_bounds(p);
    lemma_index_bounds(q);
    assert(is_link(cell_i(o, 0, l4_index(p))));
    assert(lv[n3 as int] == 3);
    assert(is_link(cell_i(o, n3 as int, l3_index(p))));
    assert(lv[n2 as int] == 2);
    assert(is_link(cell_i(o, n2 as int, l2_index(p))));
    assert(lv[n1 as int] == 1 && n1 >= 1);
    let i4 = l4_index(q);
    let i3 = l3_index(q);
    let i2 = l2_index(q);
    let i1 = l1_index(q);
    assert(cell_i(n, 0, i4) == cell_i(o, 0, i4));
    match cell_i(o, 0, i4) {
        Entry::Table(m3u) => {
            let m3 = m3u as int;
            assert(is_link(cell_i(o, 0, i4)));
            assert(1 <= m3 < nc && lv[m3] == 3);
            assert(m3 != n1 as int);
            assert(cell_i(n, m3, i3) == cell_i(o, m3, i3));
            match cell_i(o, m3, i3) {
                Entry::Table(m2u) => {
                    let m2 = m2u as int;
                    assert(is_link(cell_i(o, m3, i3)));
                    assert(1 <= m2 < nc && lv[m2] == 2);
                    assert(m2 != n1 as int);
                    assert(cell_i(n, m2, i2) == cell_i(o, m2, i2));
                    match cell_i(o, m2, i2) {
                        Entry::Table(m1u) => {
                            let m1 = m1u as int;
                            assert(is_link(cell_i(o, m2, i2)));
                            if m1 == n1 as int {
                                assert(m2 == n2 as int && i2 == l2_index(p));
                                assert(m3 == n3 as int && i3 == l3_index(p));
                                assert(i4 == l4_index(p));
                                assert(i1 != l1_index(p));
                                assert(cell_i(n, m1, i1) == cell_i(o, m1, i1));
                            } else {
                                assert(cell_i(n, m1, i1) == cell_i(o, m1, i1));
                            }
                        },
                        _ => {},
                    }
                },
                _ => {},
            }
        },
        _ => {},
    }
}

/// One step of the walk: follow the entry `idx` of node `t` (at level
/// `lvl`), allocating and linking a fresh zeroed node when the entry is
/// vacant.  Creation consumes one frame; following an existing link
/// consumes nothing and changes nothing.
fn descend(
    pt: &mut PageTable,
    fs: &mut FrameSource,
    t: usize,
    idx: usize,
    Ghost(lvl): Ghost<int>,
) -> (r: Result<usize, MappingError>)
    requires
        old(pt).wf(),
        old(fs).wf(),
        (t as int) < old(pt).node_count,
        old(pt).levels@[t as int] == lvl,
        2 <= lvl <= 4,
        idx < 512,
    ensures
        final(pt).wf(),
        final(fs).wf(),
        final(fs).limit == old(fs).limit,
        old(fs).next <= final(fs).next <= old(fs).next + 4096,
        final(pt).root_frame == old(pt).root_frame,
        final(pt).node_count >= old(pt).node_count,
        forall|a: int|
            0 <= a < old(pt).node_count ==> final(pt).levels@[a] == old(pt).levels@[a],
        match r {
            Ok(j) => {
                &&& (j as int) < final(pt).node_count
                &&& final(pt).levels@[j as int] == lvl - 1
                &&& cell_i(final(pt).table@, t as int, idx as int) == Entry::Table(j)
                &&& forall|a: int, b: int|
                    0 <= a < old(pt).node_count && 0 <= b < 512 && !(a == t as int && b
                        == idx as int) ==> #[trigger] cell_i(final(pt).table@, a, b) == cell_i(
                        old(pt).table@,
                        a,
                        b,
                    )
                &&& forall|q: u64|
                    spec_resolve(final(pt).table@, q) == spec_resolve(old(pt).table@, q)
                &&& forall|q: u64, g: u64|
                    spec_can_install(final(pt).table@, q, g) == spec_can_install(
                        old(pt).table@,
                        q,
                        g,
                    )
                &&& ({
                    ||| (crate::frames::fs_unchanged(*final(fs), *old(fs)) && pt_unchanged(
                        *final(pt),
                        *old(pt),
                    ) && cell_i(old(pt).table@, t as int, idx as int) == Entry::Table(j))
                    ||| (cell_i(old(pt).table@, t as int, idx as int) == Entry::Vacant && (
                    j as int) == old(pt).node_count && final(pt).node_count == old(pt).node_count
                        + 1 && final(fs).next == old(fs).next + 4096 && forall|b: int|
                        0 <= b < 512 ==> #[trigger] cell_i(final(pt).table@, j as int, b)
                            == Entry::Vacant)
                })
            },
            Err(MappingError::AlreadyMapped) => {
                &&& cell_i(old(pt).table@, t as int, idx as int) is Page
                &&& pt_unchanged(*final(pt), *old(pt))
                &&& crate::frames::fs_unchanged(*final(fs), *old(fs))
            },
            Err(MappingError::FrameExhausted) => {
                &&& cell_i(old(pt).table@, t as int, idx as int) == Entry::Vacant
                &&& pt_unchanged(*final(pt), *old(pt))
                &&& crate::frames::fs_unchanged(*final(fs), *old(fs))
                &&& old(fs).next == old(fs).limit
            },
        },
{
    let _len = pt.table.len();
    proof {
        lemma_cell_in_range(t as int, idx as int, pt.node_count as int);
    }
    let cidx = t * 512 + idx;
    match pt.table[cidx] {
        Entry::Table(j) => {
            proof {
                assert(is_link(cell_i(pt.table@, t as int, idx as int)));
            }
            Ok(j)
        },
        Entry::Page(_, _) => Err(MappingError::AlreadyMapped),
        Entry::Vacant => {
            match fs.allocate_frame() {
                None => Err(MappingError::FrameExhausted),
                Some(fr) => {
                    let ghost o = pt.table@;
                    let ghost lv = pt.levels@;
                    let j = pt.node_count;
                    let mut b: usize = 0;
                    while b < 512
                        invariant
                            b <= 512,
                            pt.table@.len() == o.len() + b,
                            forall|x: int| 0 <= x < o.len() ==> pt.table@[x] == o[x],
                            forall|x: int|
                                o.len() <= x < pt.table@.len() ==> pt.table@[x] == Entry::Vacant,
                            pt.node_count == j,
                            pt.levels@ == lv,
                            pt.node_frames@ == old(pt).node_frames@,
                            pt.root_frame == old(pt).root_frame,
                            o.len() == 512 * (j as int),
                        decreases 512 - b,
                    {
                        pt.table.push(Entry::Vacant);
                        b = b + 1;
                    }
                    let nl = pt.table.len();
                    proof {
                        assert(nl as int == 512 * (j as int + 1));
                        assert(j as int + 1 <= 512 * (j as int + 1)) by (nonlinear_arith)
                            requires
                                j as int >= 0,
                        ;
                    }
                    pt.node_count = j + 1;
                    pt.node_frames.push(fr.addr);
                    proof {
                        pt.levels@ = pt.levels@.push(lvl - 1);
                    }
                    proof {
                        assert(cidx < nl);
                    }
                    pt.table.set(cidx, Entry::Table(j));
                    proof {
                        let n = pt.table@;
                        let lvn = pt.levels@;
                        let nc = j as int;
                        assert forall|a: int, bb: int|
                            0 <= a < nc && 0 <= bb < 512 && !(a == t as int && bb
                                == idx as int) implies #[trigger] cell_i(n, a, bb) == cell_i(
                            o,
                            a,
                            bb,
                        ) by {
                            lemma_cell_in_range(a, bb, nc);
                            lemma_cells_distinct(a, bb, t as int, idx as int);
                        }
                        assert(cell_i(n, t as int, idx as int) == Entry::Table(j));
                        assert forall|bb: int| 0 <= bb < 512 implies #[trigger] cell_i(
                            n,
                            nc,
                            bb,
                        ) == Entry::Vacant by {
                            assert(512 * nc <= nc * 512 + bb < 512 * (nc + 1)) by (nonlinear_arith)
                                requires
                                    0 <= bb < 512,
                                    nc >= 0,
                            ;
                            lemma_cells_distinct(nc, bb, t as int, idx as int);
                            assert(nc * 512 + bb != cidx);
                        }
                        assert(wf_table(n, lvn, nc + 1)) by {
                            assert forall|a: int, bb: int|
                                0 <= a < nc + 1 && 0 <= bb < 512 && is_link(
                                    #[trigger] cell_i(n, a, bb),
                                ) implies {
                                let jj = link_of(cell_i(n, a, bb)) as int;
                                1 <= jj < nc + 1 && lvn[jj] == lvn[a] - 1 && lvn[a] >= 2
                            } by {
                                if a == nc {
                                    assert(cell_i(n, a, bb) == Entry::Vacant);
                                } else if a == t as int && bb == idx as int {
                                    assert(link_of(cell_i(n, a, bb)) == j);
                                } else {
                                    assert(cell_i(n, a, bb) == cell_i(o, a, bb));
                                }
                            }
                            assert forall|a: int, bb: int, a2: int, b2: int|
                                0 <= a < nc + 1 && 0 <= bb < 512 && 0 <= a2 < nc + 1 && 0 <= b2
                                    < 512 && is_link(#[trigger] cell_i(n, a, bb)) && is_link(
                                    #[trigger] cell_i(n, a2, b2),
                                ) && link_of(cell_i(n, a, bb)) == link_of(cell_i(n, a2, b2))
                                    implies a == a2 && bb == b2 by {
                                if a == nc {
                                    assert(cell_i(n, a, bb) == Entry::Vacant);
                                }
                                if a2 == nc {
                                    assert(cell_i(n, a2, b2) == Entry::Vacant);
                                }
                                if a == t as int && bb == idx as int {
                                    if !(a2 == t as int && b2 == idx as int) {
                                        assert(cell_i(n, a2, b2) == cell_i(o, a2, b2));
                                        assert(is_link(cell_i(o, a2, b2)));
                                        assert((link_of(cell_i(o, a2, b2)) as int) < nc);
                                    }
                                } else if a2 == t as int && b2 == idx as int {
                                    assert(cell_i(n, a, bb) == cell_i(o, a, bb));
                                    assert(is_link(cell_i(o, a, bb)));
                                    assert((link_of(cell_i(o, a, bb)) as int) < nc);
                                } else {
                                    assert(cell_i(n, a, bb) == cell_i(o, a, bb));
                                    assert(cell_i(n, a2, b2) == cell_i(o, a2, b2));
                                }
                            }
                        }
                        assert forall|q: u64| spec_resolve(n, q) == spec_resolve(o, q) by {
                            lemma_fresh_link_preserves(
                                o,
                                n,
                                lv,
                                nc,
                                t as int,
                                idx as int,
                                j,
                                q,
                                0u64,
                            );
                        }
                        assert forall|q: u64, g: u64|
                            spec_can_install(n, q, g) == spec_can_install(o, q, g) by {
                            lemma_fresh_link_preserves(
                                o,
                                n,
                                lv,
                                nc,
                                t as int,
                                idx as int,
                                j,
                                q,
                                g,
                            );
                        }
                    }
                    Ok(j)
                },
            }
        },
    }
}

/// Install the mapping `p -> f` with flags `fl`: walk the four levels,
/// allocating missing intermediate nodes, and write the leaf entry.  A leaf
/// already holding a different frame aborts with `AlreadyMapped` and
/// changes nothing; when the walk itself was clean and at least three
/// frames were available, the install succeeds.
#[verifier::rlimit(100)]
fn install_page(pt: &mut PageTable, fs: &mut FrameSource, p: u64, f: u64, fl: PageFlags) -> (r:
    Result<(), MappingError>)
    requires
        old(pt).wf(),
        old(fs).wf(),
    ensures
        final(pt).wf(),
        final(fs).wf(),
        final(fs).limit == old(fs).limit,
        old(fs).next <= final(fs).next <= old(fs).next + 3 * 4096,
        final(pt).root_frame == old(pt).root_frame,
        final(pt).node_count >= old(pt).node_count,
        match r {
            Ok(_) => {
                &&& spec_resolve(final(pt).table@, p) == Some((f, fl))
                &&& spec_can_install(old(pt).table@, p, f)
                &&& forall|q: u64|
                    !same_slot(p, q) ==> spec_resolve(final(pt).table@, q) == spec_resolve(
                        old(pt).table@,
                        q,
                    )
                &&& forall|q: u64, g: u64|
                    !same_slot(p, q) ==> spec_can_install(final(pt).table@, q, g)
                        == spec_can_install(old(pt).table@, q, g)
            },
            Err(MappingError::AlreadyMapped) => {
                &&& !spec_can_install(old(pt).table@, p, f)
                &&& pt_unchanged(*final(pt), *old(pt))
                &&& crate::frames::fs_unchanged(*final(fs), *old(fs))
            },
            Err(MappingError::FrameExhausted) => {
                &&& final(fs).next == final(fs).limit
                &&& forall|q: u64|
                    spec_resolve(final(pt).table@, q) == spec_resolve(old(pt).table@, q)
                &&& forall|q: u64, g: u64|
                    spec_can_install(final(pt).table@, q, g) == spec_can_install(
                        old(pt).table@,
                        q,
                        g,
                    )
            },
        },
        spec_can_install(old(pt).table@, p, f) && old(fs).available() >= 3 ==> r is Ok,
{
    proof {
        lemma_index_bounds(p);
        crate::frames::lemma_available_exact(*old(fs));
    }
    let i4 = ((p / 0x800_0000) % 512) as usize;
    let i3 = ((p / 0x4_0000) % 512) as usize;
    let i2 = ((p / 512) % 512) as usize;
    let i1 = (p % 512) as usize;
    let ghost o = pt.table@;
    let ghost fs0 = *fs;
    let ghost pt0 = *pt;
    let n3 = match descend(pt, fs, 0, i4, Ghost(4int)) {
        Ok(j) => j,
        Err(e) => {
            proof {
                if e == MappingError::FrameExhausted {
                    crate::frames::lemma_available_exact(fs0);
                }
            }
            return Err(e);
        },
    };
    let ghost pt1 = *pt;
    let ghost fs1 = *fs;
    proof {
        if !crate::frames::fs_unchanged(fs1, fs0) {
            crate::frames::lemma_available_step(fs0, fs1);
        }
        assert(pt1.levels@[0] == 4 && pt1.levels@[n3 as int] == 3);
    }
    let n2 = match descend(pt, fs, n3, i3, Ghost(3int)) {
        Ok(j) => j,
        Err(e) => {
            proof {
                if e == MappingError::AlreadyMapped {
                    assert(cell_i(pt1.table@, n3 as int, i3 as int) is Page);
                    assert(pt_unchanged(pt1, pt0)) by {
                        if !pt_unchanged(pt1, pt0) {
                            assert(cell_i(pt1.table@, n3 as int, i3 as int) == Entry::Vacant);
                        }
                    }
                    assert(cell_i(o, 0, l4_index(p)) == Entry::Table(n3));
                    assert(!spec_can_install(o, p, f));
                } else {
                    crate::frames::lemma_available_exact(fs1);
                    assert(fs1.available() == 0);
                }
            }
            return Err(e);
        },
    };
    let ghost pt2 = *pt;
    let ghost fs2 = *fs;
    proof {
        if !crate::frames::fs_unchanged(fs2, fs1) {
            crate::frames::lemma_available_step(fs1, fs2);
        }
        assert(pt2.levels@[0] == 4 && pt2.levels@[n3 as int] == 3 && pt2.levels@[n2 as int] == 2);
        assert(n3 != 0 && n2 != 0 && n2 != n3);
        assert(cell_i(pt2.table@, 0, l4_index(p)) == Entry::Table(n3));
    }
    let n1 = match descend(pt, fs, n2, i2, Ghost(2int)) {
        Ok(j) => j,
        Err(e) => {
            proof {
                if e == MappingError::AlreadyMapped {
                    assert(cell_i(pt2.table@, n2 as int, i2 as int) is Page);
                    assert(pt_unchanged(pt2, pt1)) by {
                        if !pt_unchanged(pt2, pt1) {
                            assert(cell_i(pt2.table@, n2 as int, i2 as int) == Entry::Vacant);
                        }
                    }
                    assert(pt_unchanged(pt1, pt0)) by {
                        if !pt_unchanged(pt1, pt0) {
                            assert(cell_i(pt1.table@, n3 as int, i3 as int) == Entry::Vacant);
                        }
                    }
                    assert(cell_i(o, 0, l4_index(p)) == Entry::Table(n3));
                    assert(cell_i(o, n3 as int, l3_index(p)) == Entry::Table(n2));
                    assert(!spec_can_install(o, p, f));
                } else {
                    crate::frames::lemma_available_exact(fs2);
                    assert(fs2.available() == 0);
                }
            }
            return Err(e);
        },
    };
    let ghost pt3 = *pt;
    let ghost fs3 = *fs;
    proof {
        if !crate::frames::fs_unchanged(fs3, fs2) {
            crate::frames::lemma_available_step(fs2, fs3);
        }
        assert(pt3.levels@[0] == 4 && pt3.levels@[n3 as int] == 3 && pt3.levels@[n2 as int] == 2
            && pt3.levels@[n1 as int] == 1);
        assert(n1 != 0 && n1 != n3 && n1 != n2);
        assert(cell_i(pt3.table@, 0, l4_index(p)) == Entry::Table(n3));
        assert(cell_i(pt3.table@, n3 as int, l3_index(p)) == Entry::Table(n2));
        assert(cell_i(pt3.table@, n2 as int, l2_index(p)) == Entry::Table(n1));
    }
    let _len = pt.table.len();
    proof {
        lemma_cell_in_range(n1 as int, i1 as int, pt.node_count as int);
    }
    let cidx = n1 * 512 + i1;
    let leaf = pt.table[cidx];
    let conflict: bool = match leaf {
        Entry::Vacant => false,
        Entry::Page(g, _) => g != f,
        Entry::Table(_) => {
            proof {
                assert(is_link(cell_i(pt3.table@, n1 as int, i1 as int)));
                assert(false);
            }
            true
        },
    };
    if conflict {
        proof {
            assert(cell_i(pt3.table@, n1 as int, i1 as int) matches Entry::Page(g, _) && g != f);
            assert(pt_unchanged(pt3, pt2)) by {
                if !pt_unchanged(pt3, pt2) {
                    assert(cell_i(pt3.table@, n1 as int, i1 as int) == Entry::Vacant);
                }
            }
            assert(pt_unchanged(pt2, pt1)) by {
                if !pt_unchanged(pt2, pt1) {
                    assert(cell_i(pt2.table@, n2 as int, i2 as int) == Entry::Vacant);
                }
            }
            assert(pt_unchanged(pt1, pt0)) by {
                if !pt_unchanged(pt1, pt0) {
                    assert(cell_i(pt1.table@, n3 as int, i3 as int) == Entry::Vacant);
                }
            }
            assert(cell_i(o, 0, l4_index(p)) == Entry::Table(n3));
            assert(cell_i(o, n3 as int, l3_index(p)) == Entry::Table(n2));
            assert(cell_i(o, n2 as int, l2_index(p)) == Entry::Table(n1));
            assert(!spec_can_install(o, p, f));
        }
        return Err(MappingError::AlreadyMapped);
    }
    let ghost o3 = pt.table@;
    let ghost lv3 = pt.levels@;
    let ghost nc3 = pt.node_count as int;
    pt.table.set(cidx, Entry::Page(f, fl));
    proof {
        let n = pt.table@;
        assert forall|a: int, bb: int|
            0 <= a < nc3 && 0 <= bb < 512 && !(a == n1 as int && bb == i1 as int)
            implies #[trigger] cell_i(n, a, bb) == cell_i(o3, a, bb) by {
            lemma_cell_in_range(a, bb, nc3);
            lemma_cells_distinct(a, bb, n1 as int, i1 as int);
        }
        assert(cell_i(n, n1 as int, i1 as int) == Entry::Page(f, fl));
        assert(wf_table(n, lv3, nc3)) by {
            assert forall|a: int, bb: int|
                0 <= a < nc3 && 0 <= bb < 512 && is_link(#[trigger] cell_i(n, a, bb)) implies {
                let jj = link_of(cell_i(n, a, bb)) as int;
                1 <= jj < nc3 && lv3[jj] == lv3[a] - 1 && lv3[a] >= 2
            } by {
                if !(a == n1 as int && bb == i1 as int) {
                    assert(cell_i(n, a, bb) == cell_i(o3, a, bb));
                }
            }
            assert forall|a: int, bb: int, a2: int, b2: int|
                0 <= a < nc3 && 0 <= bb < 512 && 0 <= a2 < nc3 && 0 <= b2 < 512 && is_link(
                    #[trigger] cell_i(n, a, bb),
                ) && is_link(#[trigger] cell_i(n, a2, b2)) && link_of(cell_i(n, a, bb)) == link_of(
                    cell_i(n, a2, b2),
                ) implies a == a2 && bb == b2 by {
                assert(!(a == n1 as int && bb == i1 as int));
                assert(!(a2 == n1 as int && b2 == i1 as int));
                assert(cell_i(n, a, bb) == cell_i(o3, a, bb));
                assert(cell_i(n, a2, b2) == cell_i(o3, a2, b2));
            }
        }
        assert(cell_i(n, 0, l4_index(p)) == Entry::Table(n3));
        assert(cell_i(n, n3 as int, l3_index(p)) == Entry::Table(n2));
        assert(cell_i(n, n2 as int, l2_index(p)) == Entry::Table(n1));
        assert(spec_resolve(n, p) == Some((f, fl)));
        assert(spec_can_install(o, p, f)) by {
            if cell_i(o, 0, l4_index(p)) == Entry::Vacant {
            } else {
                assert(pt_unchanged(pt1, pt0)) by {
                    if !pt_unchanged(pt1, pt0) {
                        assert(cell_i(pt1.table@, 0, l4_index(p)) == Entry::Table(n3));
                        assert(cell_i(o, 0, l4_index(p)) == Entry::Vacant);
                    }
                }
                assert(cell_i(o, 0, l4_index(p)) == Entry::Table(n3));
                if cell_i(o, n3 as int, l3_index(p)) == Entry::Vacant {
                } else {
                    assert(pt_unchanged(pt2, pt1)) by {
                        if !pt_unchanged(pt2, pt1) {
                            assert(cell_i(pt2.table@, n3 as int, l3_index(p))
                                == Entry::Table(n2));
                            assert(cell_i(pt1.table@, n3 as int, l3_index(p)) == cell_i(
                                o,
                                n3 as int,
                                l3_index(p),
                            ));
                        }
                    }
                    assert(cell_i(o, n3 as int, l3_index(p)) == Entry::Table(n2));
                    if cell_i(o, n2 as int, l2_index(p)) == Entry::Vacant {
                    } else {
                        assert(pt_unchanged(pt3, pt2)) by {
                            if !pt_unchanged(pt3, pt2) {
                                assert(cell_i(pt3.table@, n2 as int, l2_index(p))
                                    == Entry::Table(n1));
                                assert(cell_i(pt2.table@, n2 as int, l2_index(p)) == cell_i(
                                    o,
                                    n2 as int,
                                    l2_index(p),
                                ));
                            }
                        }
                        assert(cell_i(o, n2 as int, l2_index(p)) == Entry::Table(n1));
                        assert(cell_i(o3, n1 as int, l1_index(p)) == cell_i(
                            o,
                            n1 as int,
                            l1_index(p),
                        ));
                    }
                }
            }
        }
        assert forall|q: u64| !same_slot(p, q) implies spec_resolve(n, q) == spec_resolve(
            o,
            q,
        ) by {
            lemma_leaf_set_preserves(o3, n, lv3, nc3, p, n3, n2, n1, q, 0u64);
        }
        assert forall|q: u64, g: u64| !same_slot(p, q) implies spec_can_install(n, q, g)
            == spec_can_install(o, q, g) by {
            lemma_leaf_set_preserves(o3, n, lv3, nc3, p, n3, n2, n1, q, g);
        }
    }
    Ok(())
}

/// The page number `k` pages into a mapped segment's range.
pub open spec fn page_of(ms: MappedSegment, k: int) -> u64 {
    (ms.first_page + k) as u64
}

/// What the constructor requires of the loader's output: each segment well
/// formed, each page-aligned range inside the addressable page space, and
/// no physical frame backing two pages — frames are owned exclusively by
/// the mapping that references them.
pub open spec fn segs_mappable(segs: Seq<MappedSegment>) -> bool {
    &&& forall|i: int| 0 <= i < segs.len() ==> (#[trigger] segs[i]).wf()
    &&& forall|i: int|
        0 <= i < segs.len() ==> (#[trigger] segs[i]).first_page + segs[i].page_count
            <= 0xF_FFFF_FFFF_FFFF
    &&& forall|i: int, k: int, j: int, l: int|
        0 <= i < segs.len() && 0 <= k < segs[i].frames@.len() && 0 <= j < segs.len() && 0 <= l
            < segs[j].frames@.len() && !(i == j && k == l) ==> (#[trigger] segs[i].frames@[k]).addr
            != (#[trigger] segs[j].frames@[l]).addr
}

/// A hierarchy is clean for the segments when every page can be installed
/// onto its own frame and no two pages share a slot.
pub open spec fn install_clean(t: Seq<Entry>, segs: Seq<MappedSegment>) -> bool {
    &&& forall|i: int, k: int|
        0 <= i < segs.len() && 0 <= k < segs[i].page_count ==> #[trigger] spec_can_install(
            t,
            page_of(segs[i], k),
            segs[i].frames@[k].addr,
        )
    &&& forall|i: int, k: int, j: int, l: int|
        0 <= i < segs.len() && 0 <= k < segs[i].page_count && 0 <= j < segs.len() && 0 <= l
            < segs[j].page_count && !(i == j && k == l) ==> !#[trigger] same_slot(
            page_of(segs[i], k),
            page_of(segs[j], l),
        )
}

/// Total pages over the mapped segments.
pub open spec fn spec_total_pages_ms(segs: Seq<MappedSegment>) -> int
    decreases segs.len(),
{
    if segs.len() == 0 {
        0
    } else {
        spec_total_pages_ms(segs.drop_last()) + segs.last().page_count
    }
}

/// Pages of the mapped segments before index `i`.
pub open spec fn spec_pages_before_ms(segs: Seq<MappedSegment>, i: int) -> int {
    spec_total_pages_ms(segs.take(i))
}

proof fn lemma_pages_before_ms_step(segs: Seq<MappedSegment>, i: int)
    requires
        0 <= i < segs.len(),
    ensures
        spec_pages_before_ms(segs, i + 1) == spec_pages_before_ms(segs, i) + segs[i].page_count,
{
    assert(segs.take(i + 1).drop_last() =~= segs.take(i));
    assert(segs.take(i + 1).last() == segs[i]);
}

proof fn lemma_pages_before_ms_nonneg(segs: Seq<MappedSegment>, i: int)
    requires
        0 <= i <= segs.len(),
    ensures
        spec_pages_before_ms(segs, i) >= 0,
    decreases i,
{
    if i > 0 {
        lemma_pages_before_ms_nonneg(segs, i - 1);
        lemma_pages_before_ms_step(segs, i - 1);
    }
}

proof fn lemma_pages_before_ms_le_total_from(segs: Seq<MappedSegment>, j: int)
    requires
        0 <= j <= segs.len(),
    ensures
        spec_total_pages_ms(segs) >= spec_pages_before_ms(segs, j),
    decreases segs.len() - j,
{
    if j == segs.len() {
        assert(segs.take(segs.len() as int) =~= segs);
    } else {
        lemma_pages_before_ms_step(segs, j);
        lemma_pages_before_ms_le_total_from(segs, j + 1);
    }
}

proof fn lemma_pages_before_ms_le_total(segs: Seq<MappedSegment>, i: int)
    requires
        0 <= i < segs.len(),
    ensures
        spec_total_pages_ms(segs) >= spec_pages_before_ms(segs, i) + segs[i].page_count,
{
    lemma_pages_before_ms_step(segs, i);
    lemma_pages_before_ms_le_total_from(segs, i + 1);
}

/// Pages of the same slot resolve alike and are installable alike.
proof fn lemma_same_slot_equiv(t: Seq<Entry>, p: u64, q: u64, f: u64)
    requires
        same_slot(p, q),
    ensures
        spec_resolve(t, p) == spec_resolve(t, q),
        spec_can_install(t, p, f) == spec_can_install(t, q, f),
{
}

/// A page that already resolves can be installed exactly onto the frame it
/// already holds.
proof fn lemma_can_install_resolved(t: Seq<Entry>, p: u64, f: u64, g: u64, fl: PageFlags)
    requires
        spec_resolve(t, p) == Some((g, fl)),
    ensures
        spec_can_install(t, p, f) == (g == f),
{
}

/// After a page install, every page installed before — and the new one —
/// still resolves to its own frame with its translated flags.
proof fn lemma_maintain_resolved(
    o_cur: Seq<Entry>,
    o_new: Seq<Entry>,
    segs: Seq<MappedSegment>,
    i: int,
    k: int,
    p: u64,
    f: u64,
    fl: PageFlags,
)
    requires
        segs_mappable(segs),
        0 <= i < segs.len(),
        0 <= k < segs[i].page_count,
        p == page_of(segs[i], k),
        f == segs[i].frames@[k].addr,
        fl == spec_frame_flags(segs[i].perms),
        forall|a: int, b: int|
            0 <= a < segs.len() && 0 <= b < segs[a].page_count && (a < i || (a == i && b < k))
                ==> spec_resolve(o_cur, #[trigger] page_of(segs[a], b)) == Some(
                (segs[a].frames@[b].addr, spec_frame_flags(segs[a].perms)),
            ),
        spec_resolve(o_new, p) == Some((f, fl)),
        spec_can_install(o_cur, p, f),
        forall|q: u64| !same_slot(p, q) ==> spec_resolve(o_new, q) == spec_resolve(o_cur, q),
    ensures
        forall|a: int, b: int|
            0 <= a < segs.len() && 0 <= b < segs[a].page_count && (a < i || (a == i && b < k + 1))
                ==> spec_resolve(o_new, #[trigger] page_of(segs[a], b)) == Some(
                (segs[a].frames@[b].addr, spec_frame_flags(segs[a].perms)),
            ),
{
    assert forall|a: int, b: int|
        0 <= a < segs.len() && 0 <= b < segs[a].page_count && (a < i || (a == i && b < k + 1))
        implies spec_resolve(o_new, #[trigger] page_of(segs[a], b)) == Some(
        (segs[a].frames@[b].addr, spec_frame_flags(segs[a].perms)),
    ) by {
        if a == i && b == k {
        } else {
            if same_slot(p, page_of(segs[a], b)) {
                lemma_same_slot_equiv(o_cur, p, page_of(segs[a], b), f);
                lemma_can_install_resolved(
                    o_cur,
                    p,
                    f,
                    segs[a].frames@[b].addr,
                    spec_frame_flags(segs[a].perms),
                );
                assert(segs[a].frames@[b].addr == segs[i].frames@[k].addr);
                assert(false);
            }
        }
    }
}

/// After a page install on a clean start, every page of every segment is
/// still installable onto its own frame.
proof fn lemma_maintain_clean(
    o_cur: Seq<Entry>,
    o_new: Seq<Entry>,
    segs: Seq<MappedSegment>,
    i: int,
    k: int,
    p: u64,
    f: u64,
    fl: PageFlags,
)
    requires
        0 <= i < segs.len(),
        0 <= k < segs[i].page_count,
        p == page_of(segs[i], k),
        f == segs[i].frames@[k].addr,
        fl == spec_frame_flags(segs[i].perms),
        forall|a: int, b: int, j: int, l: int|
            0 <= a < segs.len() && 0 <= b < segs[a].page_count && 0 <= j < segs.len() && 0 <= l
                < segs[j].page_count && !(a == j && b == l) ==> !#[trigger] same_slot(
                page_of(segs[a], b),
                page_of(segs[j], l),
            ),
        forall|a: int, b: int|
            0 <= a < segs.len() && 0 <= b < segs[a].page_count ==> #[trigger] spec_can_install(
                o_cur,
                page_of(segs[a], b),
                segs[a].frames@[b].addr,
            ),
        spec_resolve(o_new, p) == Some((f, fl)),
        forall|q: u64, g: u64|
            !same_slot(p, q) ==> spec_can_install(o_new, q, g) == spec_can_install(o_cur, q, g),
    ensures
        forall|a: int, b: int|
            0 <= a < segs.len() && 0 <= b < segs[a].page_count ==> #[trigger] spec_can_install(
                o_new,
                page_of(segs[a], b),
                segs[a].frames@[b].addr,
            ),
{
    assert forall|a: int, b: int|
        0 <= a < segs.len() && 0 <= b < segs[a].page_count implies #[trigger] spec_can_install(
        o_new,
        page_of(segs[a], b),
        segs[a].frames@[b].addr,
    ) by {
        if a == i && b == k {
            lemma_can_install_resolved(o_new, p, segs[a].frames@[b].addr, f, fl);
        } else {
            assert(!same_slot(page_of(segs[i], k), page_of(segs[a], b)));
        }
    }
}

/// After a page install, every page whose slot none of the installed pages
/// uses still resolves as it did in the original hierarchy.
proof fn lemma_maintain_outside(
    o0: Seq<Entry>,
    o_cur: Seq<Entry>,
    o_new: Seq<Entry>,
    segs: Seq<MappedSegment>,
    i: int,
    k: int,
    p: u64,
)
    requires
        0 <= i < segs.len(),
        0 <= k < segs[i].page_count,
        p == page_of(segs[i], k),
        forall|q: u64|
            (forall|a: int, b: int|
                0 <= a < segs.len() && 0 <= b < segs[a].page_count && (a < i || (a == i && b < k))
                    ==> !same_slot(#[trigger] page_of(segs[a], b), q)) ==> spec_resolve(o_cur, q)
                == spec_resolve(o0, q),
        forall|q: u64| !same_slot(p, q) ==> spec_resolve(o_new, q) == spec_resolve(o_cur, q),
    ensures
        forall|q: u64|
            (forall|a: int, b: int|
                0 <= a < segs.len() && 0 <= b < segs[a].page_count && (a < i || (a == i && b < k
                    + 1)) ==> !same_slot(#[trigger] page_of(segs[a], b), q)) ==> spec_resolve(
                o_new,
                q,
            ) == spec_resolve(o0, q),
{
    assert forall|q: u64|
        (forall|a: int, b: int|
            0 <= a < segs.len() && 0 <= b < segs[a].page_count && (a < i || (a == i && b < k + 1))
                ==> !same_slot(#[trigger] page_of(segs[a], b), q)) implies spec_resolve(o_new, q)
        == spec_resolve(o0, q) by {
        assert(!same_slot(page_of(segs[i], k), q));
        assert(spec_resolve(o_cur, q) == spec_resolve(o0, q));
    }
}

/// A source that started with three frames per page still holds three
/// frames while any page is left to install.
proof fn lemma_enough_frames(
    fs_orig: FrameSource,
    fscur: FrameSource,
    segs: Seq<MappedSegment>,
    i: int,
    k: int,
)
    requires
        fs_orig.wf(),
        fscur.wf(),
        fscur.limit == fs_orig.limit,
        0 <= i < segs.len(),
        0 <= k < segs[i].page_count,
        fs_orig.available() >= 3 * spec_total_pages_ms(segs),
        fscur.next <= fs_orig.next + 3 * 4096 * (spec_pages_before_ms(segs, i) + k),
    ensures
        fscur.available() >= 3,
{
    lemma_pages_before_ms_le_total(segs, i);
    lemma_pages_before_ms_nonneg(segs, i);
    crate::frames::lemma_available_exact(fs_orig);
    crate::frames::lemma_available_exact(fscur);
    let total = spec_total_pages_ms(segs);
    let pb = spec_pages_before_ms(segs, i);
    assert(pb + k + 1 <= total);
    assert(4096 * fs_orig.available() >= 4096 * (3 * total)) by (nonlinear_arith)
        requires
            fs_orig.available() >= 3 * total,
    ;
    assert(3 * 4096 * (pb + k) + 3 * 4096 <= 4096 * (3 * total)) by (nonlinear_arith)
        requires
            pb + k + 1 <= total,
    ;
    assert(fscur.limit - fscur.next >= 3 * 4096);
    vstd::arithmetic::div_mod::lemma_div_is_ordered(
        (3 * 4096) as int,
        fscur.limit - fscur.next,
        4096,
    );
    assert((3 * 4096) as int / 4096 == 3);
}

/// Install every segment's mappings, page by page in ascending order,
/// translating each permission triple to leaf flags.
///
/// On success every page of every segment resolves to its own frame with
/// the translated flags, and every page outside the segments' slots
/// resolves exactly as before — nothing is ever reported as success with a
/// mapping missing or wrong.  `AlreadyMapped` is returned only when the
/// hierarchy and segments were not clean to begin with; frame exhaustion
/// leaves the source drained and the attempt reported as failure.  On a
/// clean hierarchy with at least three frames available per page, the
/// construction succeeds.
#[verifier::rlimit(100)]
pub fn install(pt: &mut PageTable, segs: &Vec<MappedSegment>, fs: &mut FrameSource) -> (r: Result<
    (),
    MappingError,
>)
    requires
        old(pt).wf(),
        old(fs).wf(),
        segs_mappable(segs@),
    ensures
        final(pt).wf(),
        final(fs).wf(),
        final(fs).limit == old(fs).limit,
        old(fs).next <= final(fs).next,
        final(pt).root_frame == old(pt).root_frame,
        match r {
            Ok(_) => {
                &&& forall|a: int, b: int|
                    0 <= a < segs@.len() && 0 <= b < segs@[a].page_count ==> spec_resolve(
                        final(pt).table@,
                        #[trigger] page_of(segs@[a], b),
                    ) == Some((segs@[a].frames@[b].addr, spec_frame_flags(segs@[a].perms)))
                &&& forall|q: u64|
                    (forall|a: int, b: int|
                        0 <= a < segs@.len() && 0 <= b < segs@[a].page_count ==> !same_slot(
                            #[trigger] page_of(segs@[a], b),
                            q,
                        )) ==> spec_resolve(final(pt).table@, q) == spec_resolve(
                        old(pt).table@,
                        q,
                    )
            },
            Err(MappingError::AlreadyMapped) => !install_clean(old(pt).table@, segs@),
            Err(MappingError::FrameExhausted) => final(fs).next == final(fs).limit,
        },
        install_clean(old(pt).table@, segs@) && old(fs).available() >= 3 * spec_total_pages_ms(
            segs@,
        ) ==> r is Ok,
{
    let ghost o = pt.table@;
    let ghost fs_orig = *fs;
    let ghost clean = install_clean(o, segs@);
    let nsegs = segs.len();
    let mut i: usize = 0;
    while i < nsegs
        invariant
            pt.wf(),
            fs.wf(),
            segs_mappable(segs@),
            nsegs == segs@.len(),
            o == old(pt).table@,
            fs_orig == *old(fs),
            clean == install_clean(o, segs@),
            fs.limit == old(fs).limit,
            old(fs).next <= fs.next,
            old(fs).wf(),
            pt.root_frame == old(pt).root_frame,
            0 <= i <= nsegs,
            forall|a: int, b: int|
                0 <= a < segs@.len() && 0 <= b < segs@[a].page_count && a < i ==> spec_resolve(
                    pt.table@,
                    #[trigger] page_of(segs@[a], b),
                ) == Some((segs@[a].frames@[b].addr, spec_frame_flags(segs@[a].perms))),
            forall|q: u64|
                (forall|a: int, b: int|
                    0 <= a < segs@.len() && 0 <= b < segs@[a].page_count && a < i ==> !same_slot(
                        #[trigger] page_of(segs@[a], b),
                        q,
                    )) ==> spec_resolve(pt.table@, q) == spec_resolve(o, q),
            clean ==> forall|a: int, b: int|
                0 <= a < segs@.len() && 0 <= b < segs@[a].page_count
                    ==> #[trigger] spec_can_install(
                    pt.table@,
                    page_of(segs@[a], b),
                    segs@[a].frames@[b].addr,
                ),
            clean ==> fs.next <= old(fs).next + 3 * 4096 * spec_pages_before_ms(segs@, i as int),
        decreases nsegs - i,
    {
        let count = segs[i].page_count;
        let first = segs[i].first_page;
        proof {
            lemma_pages_before_ms_nonneg(segs@, i as int);
        }
        let mut k: u64 = 0;
        while k < count
            invariant
                pt.wf(),
                fs.wf(),
                segs_mappable(segs@),
                nsegs == segs@.len(),
                o == old(pt).table@,
                fs_orig == *old(fs),
                clean == install_clean(o, segs@),
                fs.limit == old(fs).limit,
                old(fs).next <= fs.next,
                old(fs).wf(),
                pt.root_frame == old(pt).root_frame,
                0 <= i < nsegs,
                0 <= k <= count,
                count == segs@[i as int].page_count,
                first == segs@[i as int].first_page,
                forall|a: int, b: int|
                    0 <= a < segs@.len() && 0 <= b < segs@[a].page_count && (a < i || (a == i && b
                        < k)) ==> spec_resolve(pt.table@, #[trigger] page_of(segs@[a], b)) == Some(
                        (segs@[a].frames@[b].addr, spec_frame_flags(segs@[a].perms)),
                    ),
                forall|q: u64|
                    (forall|a: int, b: int|
                        0 <= a < segs@.len() && 0 <= b < segs@[a].page_count && (a < i || (a == i
                            && b < k)) ==> !same_slot(#[trigger] page_of(segs@[a], b), q))
                        ==> spec_resolve(pt.table@, q) == spec_resolve(o, q),
                clean ==> forall|a: int, b: int|
                    0 <= a < segs@.len() && 0 <= b < segs@[a].page_count
                        ==> #[trigger] spec_can_install(
                        pt.table@,
                        page_of(segs@[a], b),
                        segs@[a].frames@[b].addr,
                    ),
                clean ==> fs.next <= old(fs).next + 3 * 4096 * (spec_pages_before_ms(
                    segs@,
                    i as int,
                ) + k),
            decreases count - k,
        {
            let p = first + k;
            let flen = segs[i].frames.len();
            proof {
                assert(flen == segs@[i as int].page_count);
            }
            let fr = segs[i].frames[k as usize];
            let fl = frame_flags(segs[i].perms);
            let ghost cur = *pt;
            let ghost fscur = *fs;
            proof {
                assert(p == page_of(segs@[i as int], k as int));
                if clean && fs_orig.available() >= 3 * spec_total_pages_ms(segs@) {
                    lemma_enough_frames(fs_orig, fscur, segs@, i as int, k as int);
                }
            }
            match install_page(pt, fs, p, fr.addr, fl) {
                Ok(_) => {},
                Err(e) => {
                    proof {
                        if clean {
                            assert(spec_can_install(
                                cur.table@,
                                page_of(segs@[i as int], k as int),
                                segs@[i as int].frames@[k as int].addr,
                            ));
                            assert(e != MappingError::AlreadyMapped);
                            if fs_orig.available() >= 3 * spec_total_pages_ms(segs@) {
                                assert(false);
                            }
                        }
                    }
                    return Err(e);
                },
            }
            proof {
                if clean {
                    let pb = spec_pages_before_ms(segs@, i as int);
                    assert(3 * 4096 * (pb + (k + 1)) == 3 * 4096 * (pb + k) + 3 * 4096)
                        by (nonlinear_arith);
                }
                lemma_maintain_resolved(
                    cur.table@,
                    pt.table@,
                    segs@,
                    i as int,
                    k as int,
                    p,
                    fr.addr,
                    fl,
                );
                lemma_maintain_outside(o, cur.table@, pt.table@, segs@, i as int, k as int, p);
                if clean {
                    lemma_maintain_clean(
                        cur.table@,
                        pt.table@,
                        segs@,
                        i as int,
                        k as int,
                        p,
                        fr.addr,
                        fl,
                    );
                }
            }
            k = k + 1;
        }
        proof {
            lemma_pages_before_ms_step(segs@, i as int);
        }
        i = i + 1;
    }
    proof {
        assert(segs@.take(nsegs as int) =~= segs@);
        lemma_pages_before_ms_le_total_from(segs@, nsegs as int);
    }
    Ok(())
}


/// Law: what the loader produces, the constructor accepts.  Segments loaded
/// from a validated image are well formed, their page-aligned ranges lie in
/// the addressable page space, and no physical frame backs two pages.
pub proof fn lemma_loaded_segments_mappable(
    img: Seq<u8>,
    segs: Seq<crate::image::Segment>,
    loaded: Seq<MappedSegment>,
    base: int,
)
    requires
        loaded.len() == segs.len(),
        forall|t: int|
            0 <= t < segs.len() ==> crate::image::spec_seg_ok(#[trigger] segs[t], img.len() as int),
        forall|t: int|
            0 <= t < loaded.len() ==> crate::loader::seg_loaded(
                img,
                segs[t],
                #[trigger] loaded[t],
                base + 4096 * crate::loader::spec_pages_before(segs, t),
            ),
    ensures
        segs_mappable(loaded),
{
    assert forall|t: int| 0 <= t < segs.len() implies crate::image::seg_page_count(
        #[trigger] segs[t],
    ) >= 1 by {
        crate::loader::lemma_seg_pages(segs[t]);
    }
    assert forall|t: int| 0 <= t < loaded.len() implies (#[trigger] loaded[t]).first_page
        + loaded[t].page_count <= 0xF_FFFF_FFFF_FFFF by {
        crate::loader::lemma_seg_pages(segs[t]);
        let e = crate::image::seg_end_page(segs[t]);
        assert(loaded[t].first_page + loaded[t].page_count == e);
        assert(e <= 0xF_FFFF_FFFF_FFFF) by (nonlinear_arith)
            requires
                e * 4096 <= u64::MAX,
        ;
    }
    assert forall|i: int, k: int, j: int, l: int|
        0 <= i < loaded.len() && 0 <= k < loaded[i].frames@.len() && 0 <= j < loaded.len() && 0 <= l
            < loaded[j].frames@.len() && !(i == j && k == l) implies (
    #[trigger] loaded[i].frames@[k]).addr != (#[trigger] loaded[j].frames@[l]).addr by {
        crate::loader::lemma_frames_no_alias(img, segs, loaded, base, i, k, j, l);
    }
}

/// Law: permissions survive construction unweakened and unstrengthened.
/// Wherever a segment's pages resolve with the translated flags, a page of
/// a segment that did not request write access is not writable, and a page
/// is executable exactly when its segment requested execute access.
pub proof fn lemma_permissions_preserved(
    t: Seq<Entry>,
    segs: Seq<MappedSegment>,
    a: int,
    b: int,
    f: u64,
    fl: PageFlags,
)
    requires
        0 <= a < segs.len(),
        0 <= b < segs[a].page_count,
        spec_resolve(t, page_of(segs[a], b)) == Some((f, fl)),
        fl == spec_frame_flags(segs[a].perms),
    ensures
        !segs[a].perms.write ==> !fl.writable,
        segs[a].perms.execute <==> fl.executable,
{
}

} // verus!
