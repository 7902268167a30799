//! The four-level page-table hierarchy: table storage, the translation walk
//! and its specification.
//!
//! Page tables are held as plain data: a store of 512-entry tables, each
//! named by the aligned base address of the frame that holds it. The store,
//! together with the base of the active level-4 table, denotes a partial
//! translation of virtual to physical addresses; the spec function [`walk`]
//! says which one. The mapper mutates the store and is specified against the
//! same function.

use vstd::prelude::*;

use crate::addr::{
    canonical, page_aligned, page_base_spec, page_offset_spec, phys_bounded, p1_index_spec,
    p2_index_spec, p3_index_spec, p4_index_spec, lemma_index_bounds, lemma_offset_in_page,
    same_slots, ENTRY_ADDR_MASK, FLAG_HUGE_PAGE, FLAG_PRESENT, FLAG_WRITABLE, Page,
    PHYS_LIMIT,
    PageTableFlags, PhysAddr,
    PhysFrame, VirtAddr,
};
use crate::frame_alloc::FrameAllocator;

verus! {

/// The entry is marked present.
pub open spec fn entry_present(e: u64) -> bool {
    e & FLAG_PRESENT == FLAG_PRESENT
}

/// The entry carries the huge-page bit.
pub open spec fn entry_huge(e: u64) -> bool {
    e & FLAG_HUGE_PAGE == FLAG_HUGE_PAGE
}

/// The frame base stored in the entry: bits 12..52.
pub open spec fn entry_addr(e: u64) -> u64 {
    e & ENTRY_ADDR_MASK
}

/// The contents of every table the subsystem knows, keyed by the base
/// address of the frame holding the table.
pub type TableStore = Map<u64, Seq<u64>>;

/// A freshly allocated table: all 512 entries clear, so none is present.
pub open spec fn zero_table() -> Seq<u64> {
    Seq::new(512, |i: int| 0u64)
}

/// Every stored table row has exactly 512 entries.
pub open spec fn rows_wf(m: TableStore) -> bool {
    forall|b: u64| #[trigger] m.contains_key(b) ==> m[b].len() == 512
}

/// One step of the translation walk: what the entry at `idx` of the table
/// at `tb` says. A table missing from the store, or an entry that is not
/// present, ends the walk.
pub enum WalkStep {
    /// No table here, or the entry is not present.
    Absent,
    /// The entry maps a huge page; unsupported.
    HugeEntry,
    /// The entry points at the table or frame with this base.
    Next(u64),
}

/// What one level of the walk yields.
pub open spec fn walk_step(m: TableStore, tb: u64, idx: u64) -> WalkStep {
    if !m.contains_key(tb) {
        WalkStep::Absent
    } else {
        let e = m[tb][idx as int];
        if !entry_present(e) {
            WalkStep::Absent
        } else if entry_huge(e) {
            WalkStep::HugeEntry
        } else {
            WalkStep::Next(entry_addr(e))
        }
    }
}

/// Decodes one raw table entry: the per-level decision of the walk, also
/// usable by a caller that reads live table memory itself.
pub fn decode_entry(e: u64) -> (r: WalkStep)
    ensures
        r == (if !entry_present(e) {
            WalkStep::Absent
        } else if entry_huge(e) {
            WalkStep::HugeEntry
        } else {
            WalkStep::Next(entry_addr(e))
        }),
{
    if e & FLAG_PRESENT != FLAG_PRESENT {
        WalkStep::Absent
    } else if e & FLAG_HUGE_PAGE == FLAG_HUGE_PAGE {
        WalkStep::HugeEntry
    } else {
        WalkStep::Next(e & ENTRY_ADDR_MASK)
    }
}

/// The outcome of translating one virtual address.
#[derive(Clone, Copy, Debug, PartialEq, Eq, Structural)]
pub enum Translation {
    /// The address is mapped to this physical address.
    Mapped(u64),
    /// Some level of the walk found no present entry.
    Unmapped,
    /// Some level of the walk found a huge-page entry; fatal.
    HugeFrame,
}

/// What a leaf entry `e` says about a virtual address in its page.
pub open spec fn leaf_decode(e: u64, va: u64) -> Translation {
    if !entry_present(e) {
        Translation::Unmapped
    } else if entry_huge(e) {
        Translation::HugeFrame
    } else {
        Translation::Mapped(entry_addr(e) | page_offset_spec(va))
    }
}

/// The level-3 table a virtual address routes through, if the level-4 entry
/// links one.
pub open spec fn l3_table(m: TableStore, root: u64, va: u64) -> Option<u64> {
    match walk_step(m, root, p4_index_spec(va)) {
        WalkStep::Next(t) => Some(t),
        _ => None,
    }
}

/// The level-2 table a virtual address routes through.
pub open spec fn l2_table(m: TableStore, root: u64, va: u64) -> Option<u64> {
    match l3_table(m, root, va) {
        Some(t3) => match walk_step(m, t3, p3_index_spec(va)) {
            WalkStep::Next(t) => Some(t),
            _ => None,
        },
        None => None,
    }
}

/// The level-1 table a virtual address routes through.
pub open spec fn l1_table(m: TableStore, root: u64, va: u64) -> Option<u64> {
    match l2_table(m, root, va) {
        Some(t2) => match walk_step(m, t2, p2_index_spec(va)) {
            WalkStep::Next(t) => Some(t),
            _ => None,
        },
        None => None,
    }
}

/// The full four-level translation walk for a virtual address, starting
/// from the table at `root`.
pub open spec fn walk(m: TableStore, root: u64, va: u64) -> Translation {
    match walk_step(m, root, p4_index_spec(va)) {
        WalkStep::Absent => Translation::Unmapped,
        WalkStep::HugeEntry => Translation::HugeFrame,
        WalkStep::Next(t3) => match walk_step(m, t3, p3_index_spec(va)) {
            WalkStep::Absent => Translation::Unmapped,
            WalkStep::HugeEntry => Translation::HugeFrame,
            WalkStep::Next(t2) => match walk_step(m, t2, p2_index_spec(va)) {
                WalkStep::Absent => Translation::Unmapped,
                WalkStep::HugeEntry => Translation::HugeFrame,
                WalkStep::Next(t1) => {
                    if !m.contains_key(t1) {
                        Translation::Unmapped
                    } else {
                        leaf_decode(m[t1][p1_index_spec(va) as int], va)
                    }
                },
            },
        },
    }
}

/// The table at `b`, when present and linked at level two or above, has a
/// present non-huge entry at `i`.
pub open spec fn links(m: TableStore, lv: Map<u64, int>, b: u64, i: int) -> bool {
    &&& m.contains_key(b)
    &&& lv[b] >= 2
    &&& 0 <= i < 512
    &&& entry_present(m[b][i])
    &&& !entry_huge(m[b][i])
}

/// The child table base that entry `i` of the table at `b` points to.
pub open spec fn child_at(m: TableStore, b: u64, i: int) -> u64 {
    entry_addr(m[b][i])
}

/// The store and the ghost level assignment form a well-shaped four-level
/// tree rooted at `root`:
///
/// * every table has a level between 1 and 4; the root, and only the root,
///   has level 4;
/// * every table base is frame-aligned and within the physical width;
/// * a present non-huge entry of a table at level two or above links a
///   stored table one level down;
/// * no two such entries link the same child, and every table row has 512
///   entries.
pub open spec fn tree_inv(m: TableStore, lv: Map<u64, int>, root: u64) -> bool {
    &&& m.contains_key(root)
    &&& lv.dom() == m.dom()
    &&& lv[root] == 4
    &&& forall|b: u64| m.contains_key(b) ==> 1 <= #[trigger] lv[b] <= 4
    &&& forall|b: u64| m.contains_key(b) && #[trigger] lv[b] == 4 ==> b == root
    &&& forall|b: u64| #[trigger] m.contains_key(b) ==> page_aligned(b) && phys_bounded(b)
    &&& forall|b: u64, i: int| links(m, lv, b, i) ==> #[trigger] m.contains_key(
        #[trigger] child_at(m, b, i)) && lv[child_at(m, b, i)] == lv[b] - 1
    &&& forall|b1: u64, i1: int, b2: u64, i2: int|
        links(m, lv, b1, i1) && links(m, lv, b2, i2) && #[trigger] child_at(m, b1, i1)
            == #[trigger] child_at(m, b2, i2) ==> b1 == b2 && i1 == i2
}

/// A translation-miss is the expected result for an address whose page is
/// not mapped; a huge-page entry is the fatal, unsupported condition.
#[derive(Clone, Copy, Debug, PartialEq, Eq, Structural)]
pub enum TranslateError {
    /// The walk met an entry with the huge-page bit set.
    HugeFrame,
}

/// What translating `va` must return: the mapped physical address, `None`
/// on a miss, or the fatal huge-page error.
pub open spec fn translate_result(m: TableStore, root: u64, va: u64) -> Result<
    Option<PhysAddr>,
    TranslateError,
> {
    match walk(m, root, va) {
        Translation::Mapped(p) => Ok(Some(PhysAddr { addr: p })),
        Translation::Unmapped => Ok(None),
        Translation::HugeFrame => Err(TranslateError::HugeFrame),
    }
}

/// An exclusive view of the active page-table hierarchy, accessed through
/// the physical-memory offset.
///
/// Exactly one such value should exist at a time; kernel init obtains it
/// once and threads it through the rest of the kernel. The tables are owned
/// data here: `bases[i]` names the frame that holds row `tables[i]`, and
/// the ghost `store` is the same association as a map.
pub struct OffsetPageTable {
    /// The fixed offset at which all physical memory is mapped into virtual
    /// memory: `virtual = physical + offset`.
    pub phys_offset: u64,
    /// Base address of the frame holding the active level-4 table.
    pub root: u64,
    /// Frame base of each stored table.
    pub bases: Vec<u64>,
    /// The 512 entries of each stored table, in the same order as `bases`.
    pub tables: Vec<Vec<u64>>,
    /// The store as a map from frame base to table contents.
    pub store: Ghost<Map<u64, Seq<u64>>>,
    /// Where each stored table sits in `bases` and `tables`.
    pub slot: Ghost<Map<u64, int>>,
    /// The level, 4 down to 1, of each stored table.
    pub levels: Ghost<Map<u64, int>>,
}

impl OffsetPageTable {
    /// The executable vectors agree with the ghost store: same set of
    /// tables, same contents, distinct bases, every row 512 entries long.
    pub open spec fn store_wf(self) -> bool {
        &&& self.bases.len() == self.tables.len()
        &&& forall|i: int, j: int|
            0 <= i < j < self.bases.len() ==> self.bases[i] != self.bases[j]
        &&& forall|i: int|
            0 <= i < self.bases.len() ==> #[trigger] self.store@.contains_key(self.bases[i])
        &&& forall|i: int|
            0 <= i < self.bases.len() ==> self.store@[#[trigger] self.bases[i]]
                == self.tables[i]@
        &&& forall|b: u64|
            #[trigger] self.store@.contains_key(b) ==> 0 <= self.slot@[b] < self.bases@.len()
                && self.bases@[self.slot@[b]] == b
        &&& rows_wf(self.store@)
    }

    /// Full well-formedness: the executable data matches the store and the
    /// store forms a well-shaped tree under the root.
    pub open spec fn inv(self) -> bool {
        &&& self.store_wf()
        &&& tree_inv(self.store@, self.levels@, self.root)
    }

    /// The index of the stored table with base `b`, if any.
    fn find_table(&self, b: u64) -> (r: Option<usize>)
        requires
            self.store_wf(),
        ensures
            match r {
                Some(i) => i < self.tables.len() && self.bases@[i as int] == b
                    && self.store@.contains_key(b) && self.store@[b] == self.tables@[i as int]@,
                None => !self.store@.contains_key(b),
            },
    {
        let n = self.bases.len();
        let mut i: usize = 0;
        while i < n
            invariant
                self.store_wf(),
                n == self.bases.len(),
                i <= n,
                forall|j: int| 0 <= j < i ==> self.bases[j] != b,
            decreases n - i,
        {
            if self.bases[i] == b {
                return Some(i);
            }
            i += 1;
        }
        None
    }

    /// The entry at `idx` of the stored table with base `tb`.
    fn entry_at(&self, tb: u64, idx: u64) -> (e: u64)
        requires
            self.store_wf(),
            self.store@.contains_key(tb),
            self.store@[tb].len() == 512,
            idx < 512,
        ensures
            e == self.store@[tb][idx as int],
    {
        match self.find_table(tb) {
            Some(ti) => self.tables[ti][idx as usize],
            None => vstd::pervasive::unreached(),
        }
    }

    /// One level of the walk, read from the store.
    fn step(&self, tb: u64, idx: u64) -> (r: WalkStep)
        requires
            self.store_wf(),
            self.store@.contains_key(tb) ==> self.store@[tb].len() == 512,
            idx < 512,
        ensures
            r == walk_step(self.store@, tb, idx),
    {
        match self.find_table(tb) {
            None => WalkStep::Absent,
            Some(ti) => {
                let e = self.tables[ti][idx as usize];
                if e & FLAG_PRESENT != FLAG_PRESENT {
                    WalkStep::Absent
                } else if e & FLAG_HUGE_PAGE == FLAG_HUGE_PAGE {
                    WalkStep::HugeEntry
                } else {
                    WalkStep::Next(e & ENTRY_ADDR_MASK)
                }
            },
        }
    }

    /// Walks the four levels of the hierarchy to resolve `addr`.
    ///
    /// Returns the physical address the tables currently assign to `addr`,
    /// `Ok(None)` when some level has no present entry, and the fatal
    /// [`TranslateError::HugeFrame`] when a huge-page entry is met; huge
    /// pages are out of scope and must propagate to an abort path rather
    /// than yield a wrong address. A pure read: the store is not changed.
    pub fn translate_addr(&self, addr: VirtAddr) -> (r: Result<Option<PhysAddr>, TranslateError>)
        requires
            self.store_wf(),
        ensures
            r == translate_result(self.store@, self.root, addr.addr),
            r matches Ok(Some(p)) ==> p.wf(),
    {
        let va = addr.as_u64();
        proof {
            lemma_index_bounds(va);
        }
        let s4 = self.step(self.root, crate::addr::p4_index(va));
        let t3 = match s4 {
            WalkStep::Absent => {
                return Ok(None);
            },
            WalkStep::HugeEntry => {
                return Err(TranslateError::HugeFrame);
            },
            WalkStep::Next(t) => t,
        };
        let s3 = self.step(t3, crate::addr::p3_index(va));
        let t2 = match s3 {
            WalkStep::Absent => {
                return Ok(None);
            },
            WalkStep::HugeEntry => {
                return Err(TranslateError::HugeFrame);
            },
            WalkStep::Next(t) => t,
        };
        let s2 = self.step(t2, crate::addr::p2_index(va));
        let t1 = match s2 {
            WalkStep::Absent => {
                return Ok(None);
            },
            WalkStep::HugeEntry => {
                return Err(TranslateError::HugeFrame);
            },
            WalkStep::Next(t) => t,
        };
        let s1 = self.step(t1, crate::addr::p1_index(va));
        match s1 {
            WalkStep::Absent => Ok(None),
            WalkStep::HugeEntry => Err(TranslateError::HugeFrame),
            WalkStep::Next(f) => {
                let p = f | (va & 0xfff);
                proof {
                    let e = self.store@[t1][p1_index_spec(va) as int];
                    assert((e & 0x000f_ffff_ffff_f000) | (va & 0xfff)
                        < 0x0010_0000_0000_0000) by (bit_vector);
                }
                Ok(Some(PhysAddr { addr: p }))
            },
        }
    }
}

impl OffsetPageTable {
    /// Records a freshly allocated, cleared table at base `b`.
    fn insert_table(&mut self, b: u64)
        requires
            old(self).store_wf(),
            !old(self).store@.contains_key(b),
        ensures
            final(self).store_wf(),
            final(self).store@ == old(self).store@.insert(b, zero_table()),
            final(self).root == old(self).root,
            final(self).phys_offset == old(self).phys_offset,
            final(self).levels == old(self).levels,
    {
        let table: Vec<u64> = vec![0u64; 512];
        self.bases.push(b);
        self.tables.push(table);
        proof {
            self.store@ = self.store@.insert(b, zero_table());
            self.slot@ = self.slot@.insert(b, old(self).bases@.len() as int);
            assert(self.tables@[self.tables@.len() - 1]@ =~= zero_table());
            assert(self.bases@ == old(self).bases@.push(b));
        }
    }

    /// Overwrites the entry at `idx` of the stored table with base `tb`.
    fn write_entry(&mut self, tb: u64, idx: u64, e: u64)
        requires
            old(self).store_wf(),
            old(self).store@.contains_key(tb),
            idx < 512,
            old(self).store@[tb].len() == 512,
        ensures
            final(self).store_wf(),
            final(self).store@ == old(self).store@.insert(
                tb,
                old(self).store@[tb].update(idx as int, e),
            ),
            final(self).root == old(self).root,
            final(self).phys_offset == old(self).phys_offset,
            final(self).levels == old(self).levels,
            final(self).bases == old(self).bases,
    {
        let ti = match self.find_table(tb) {
            Some(ti) => ti,
            None => vstd::pervasive::unreached(),
        };
        self.tables[ti][idx as usize] = e;
        proof {
            self.store@ = self.store@.insert(tb, self.store@[tb].update(idx as int, e));
            assert forall|i: int|
                0 <= i < self.bases.len() implies self.store@[#[trigger] self.bases[i]]
                == self.tables[i]@ by {
                if i != ti as int {
                    assert(self.bases[i] != tb);
                }
            }
        }
    }
}

proof fn lemma_zero_entry()
    ensures
        !entry_present(0u64),
{
    assert(0u64 & 1u64 != 1u64) by (bit_vector);
}

/// An intermediate-table link: present, writable, not huge, pointing at the
/// aligned base `t`.
proof fn lemma_link_entry(t: u64)
    requires
        page_aligned(t),
        phys_bounded(t),
    ensures
        entry_present(t | 3),
        !entry_huge(t | 3),
        entry_addr(t | 3) == t,
{
    assert((t % 4096 == 0 && t < 0x0010_0000_0000_0000) ==> ((t | 3) & 1u64 == 1u64 && (t | 3)
        & 0x80u64 != 0x80u64 && (t | 3) & 0x000f_ffff_ffff_f000u64 == t)) by (bit_vector);
}

/// A leaf entry built from an aligned frame base and attribute bits keeps
/// both apart: the flag tests read the flags, the address field reads the
/// frame.
pub proof fn lemma_leaf_encode(frame: PhysFrame, flags: PageTableFlags)
    requires
        frame.wf(),
        flags.wf(),
    ensures
        entry_present(frame.base | flags.bits) == flags.is_present(),
        entry_huge(frame.base | flags.bits) == flags.is_huge(),
        entry_addr(frame.base | flags.bits) == frame.base,
{
    let b = frame.base;
    let f = flags.bits;
    assert((b % 4096 == 0 && b < 0x0010_0000_0000_0000 && f & 0x000f_ffff_ffff_f000 == 0) ==> ((
    (b | f) & 1u64 == 1u64) == (f & 1u64 == 1u64) && (((b | f) & 0x80u64 == 0x80u64) == (f
        & 0x80u64 == 0x80u64)) && (b | f) & 0x000f_ffff_ffff_f000u64 == b)) by (bit_vector);
}

/// Linking a fresh, cleared table into a non-leaf slot whose entry was not
/// present changes no translation: the walk of every virtual address is
/// unchanged.
proof fn lemma_link_fresh_preserves_walk(
    m: TableStore,
    lv: Map<u64, int>,
    root: u64,
    tb: u64,
    idx: u64,
    f: u64,
    va: u64,
)
    requires
        rows_wf(m),
        tree_inv(m, lv, root),
        m.contains_key(tb),
        2 <= lv[tb],
        idx < 512,
        !entry_present(m[tb][idx as int]),
        !m.contains_key(f),
        page_aligned(f),
        phys_bounded(f),
    ensures
        walk(m.insert(f, zero_table()).insert(tb, m[tb].update(idx as int, f | 3)), root, va)
            == walk(m, root, va),
{
    let m2 = m.insert(f, zero_table()).insert(tb, m[tb].update(idx as int, f | 3));
    lemma_link_entry(f);
    lemma_zero_entry();
    lemma_index_bounds(va);
    let i4 = p4_index_spec(va);
    let i3 = p3_index_spec(va);
    let i2 = p2_index_spec(va);
    let i1 = p1_index_spec(va);
    assert(tb != f && root != f);
    assert(m2[f] == zero_table());
    assert(zero_table()[i3 as int] == 0u64 && zero_table()[i2 as int] == 0u64 && zero_table()[
        i1 as int] == 0u64);
    if root == tb && i4 == idx {
        assert(walk_step(m, root, i4) is Absent);
        assert(walk_step(m2, root, i4) == WalkStep::Next(f));
        assert(walk_step(m2, f, i3) is Absent);
    } else {
        assert(walk_step(m2, root, i4) == walk_step(m, root, i4));
        match walk_step(m, root, i4) {
            WalkStep::Next(t3) => {
                assert(links(m, lv, root, i4 as int));
                assert(child_at(m, root, i4 as int) == t3);
                assert(m.contains_key(t3) && lv[t3] == 3);
                assert(t3 != f);
                if t3 == tb && i3 == idx {
                    assert(walk_step(m, t3, i3) is Absent);
                    assert(walk_step(m2, t3, i3) == WalkStep::Next(f));
                    assert(walk_step(m2, f, i2) is Absent);
                } else {
                    assert(walk_step(m2, t3, i3) == walk_step(m, t3, i3));
                    match walk_step(m, t3, i3) {
                        WalkStep::Next(t2) => {
                            assert(links(m, lv, t3, i3 as int));
                            assert(child_at(m, t3, i3 as int) == t2);
                            assert(m.contains_key(t2) && lv[t2] == 2);
                            assert(t2 != f);
                            if t2 == tb && i2 == idx {
                                assert(walk_step(m, t2, i2) is Absent);
                                assert(walk_step(m2, t2, i2) == WalkStep::Next(f));
                                assert(!entry_present(m2[f][i1 as int]));
                            } else {
                                assert(walk_step(m2, t2, i2) == walk_step(m, t2, i2));
                                match walk_step(m, t2, i2) {
                                    WalkStep::Next(t1) => {
                                        assert(links(m, lv, t2, i2 as int));
                                        assert(child_at(m, t2, i2 as int) == t1);
                                        assert(m.contains_key(t1) && lv[t1] == 1);
                                        assert(t1 != f && t1 != tb);
                                        assert(m2.contains_key(t1) && m2[t1] == m[t1]);
                                    },
                                    _ => {},
                                }
                            }
                        },
                        _ => {},
                    }
                }
            },
            _ => {},
        }
    }
}

/// Linking a fresh, cleared table into a non-leaf slot keeps the store a
/// well-shaped tree, with the fresh table one level below its parent.
proof fn lemma_link_fresh_tree_inv(
    m: TableStore,
    lv: Map<u64, int>,
    root: u64,
    tb: u64,
    idx: u64,
    f: u64,
)
    requires
        rows_wf(m),
        tree_inv(m, lv, root),
        m.contains_key(tb),
        2 <= lv[tb],
        idx < 512,
        !entry_present(m[tb][idx as int]),
        !m.contains_key(f),
        page_aligned(f),
        phys_bounded(f),
    ensures
        tree_inv(
            m.insert(f, zero_table()).insert(tb, m[tb].update(idx as int, f | 3)),
            lv.insert(f, lv[tb] - 1),
            root,
        ),
{
    let m2 = m.insert(f, zero_table()).insert(tb, m[tb].update(idx as int, f | 3));
    let lv2 = lv.insert(f, lv[tb] - 1);
    lemma_link_entry(f);
    lemma_zero_entry();
    assert(tb != f && root != f);
    assert(m2[f] == zero_table());
    assert(lv2.dom() =~= m2.dom());
    assert forall|b: u64, i: int|
        links(m2, lv2, b, i) && !(b == tb && i == idx) implies links(m, lv, b, i) && child_at(
        m2,
        b,
        i,
    ) == child_at(m, b, i) by {
        if b == f {
            assert(m2[f][i] == 0u64);
        } else if b == tb {
            assert(m2[tb][i] == m[tb][i]);
        } else {
            assert(m2[b] == m[b]);
        }
    }
    assert(links(m2, lv2, tb, idx as int));
    assert(child_at(m2, tb, idx as int) == f);
    assert forall|b: u64, i: int| links(m2, lv2, b, i) implies m2.contains_key(
        child_at(m2, b, i),
    ) && lv2[child_at(m2, b, i)] == lv2[b] - 1 by {
        if b == tb && i == idx {
            assert(child_at(m2, b, i) == f);
        } else {
            assert(links(m, lv, b, i));
            let c = child_at(m, b, i);
            assert(m.contains_key(c) && lv[c] == lv[b] - 1);
            assert(c != f);
        }
    }
    assert forall|b1: u64, i1: int, b2: u64, i2: int|
        links(m2, lv2, b1, i1) && links(m2, lv2, b2, i2) && child_at(m2, b1, i1) == child_at(
            m2,
            b2,
            i2,
        ) implies b1 == b2 && i1 == i2 by {
        let n1 = b1 == tb && i1 == idx;
        let n2 = b2 == tb && i2 == idx;
        if n1 && n2 {
        } else if n1 {
            assert(links(m, lv, b2, i2));
            assert(m.contains_key(child_at(m, b2, i2)));
            assert(child_at(m2, b2, i2) != f);
        } else if n2 {
            assert(links(m, lv, b1, i1));
            assert(m.contains_key(child_at(m, b1, i1)));
            assert(child_at(m2, b1, i1) != f);
        } else {
            assert(links(m, lv, b1, i1) && links(m, lv, b2, i2));
            assert(child_at(m, b1, i1) == child_at(m, b2, i2));
        }
    }
}

/// Overwriting one entry of a level-1 table keeps the store a well-shaped
/// tree: leaf entries link nothing.
proof fn lemma_write_l1_tree_inv(
    m: TableStore,
    lv: Map<u64, int>,
    root: u64,
    t1: u64,
    wi: u64,
    e: u64,
)
    requires
        rows_wf(m),
        tree_inv(m, lv, root),
        m.contains_key(t1),
        lv[t1] == 1,
        wi < 512,
    ensures
        tree_inv(m.insert(t1, m[t1].update(wi as int, e)), lv, root),
{
    let m2 = m.insert(t1, m[t1].update(wi as int, e));
    assert(lv.dom() =~= m2.dom());
    assert(root != t1);
    assert forall|b: u64, i: int| links(m2, lv, b, i) implies links(m, lv, b, i) && child_at(
        m2,
        b,
        i,
    ) == child_at(m, b, i) by {
        assert(b != t1);
        assert(m2[b] == m[b]);
    }
    assert forall|b: u64, i: int| links(m2, lv, b, i) implies m2.contains_key(child_at(m2, b, i))
        && lv[child_at(m2, b, i)] == lv[b] - 1 by {
        assert(links(m, lv, b, i));
    }
    assert forall|b1: u64, i1: int, b2: u64, i2: int|
        links(m2, lv, b1, i1) && links(m2, lv, b2, i2) && child_at(m2, b1, i1) == child_at(
            m2,
            b2,
            i2,
        ) implies b1 == b2 && i1 == i2 by {
        assert(links(m, lv, b1, i1) && links(m, lv, b2, i2));
        assert(child_at(m, b1, i1) == child_at(m, b2, i2));
    }
}

/// Two virtual addresses that route through the same level-1 table agree
/// on their three topmost indices: the tree's links are never shared.
proof fn lemma_shared_l1(m: TableStore, lv: Map<u64, int>, root: u64, va: u64, vb: u64)
    requires
        rows_wf(m),
        tree_inv(m, lv, root),
        l1_table(m, root, va) is Some,
        l1_table(m, root, va) == l1_table(m, root, vb),
    ensures
        p4_index_spec(va) == p4_index_spec(vb),
        p3_index_spec(va) == p3_index_spec(vb),
        p2_index_spec(va) == p2_index_spec(vb),
{
    lemma_index_bounds(va);
    lemma_index_bounds(vb);
    match (l3_table(m, root, va), l3_table(m, root, vb)) {
        (Some(t3a), Some(t3b)) => {
            assert(links(m, lv, root, p4_index_spec(va) as int));
            assert(links(m, lv, root, p4_index_spec(vb) as int));
            assert(child_at(m, root, p4_index_spec(va) as int) == t3a);
            assert(child_at(m, root, p4_index_spec(vb) as int) == t3b);
            assert(m.contains_key(t3a) && lv[t3a] == 3);
            assert(m.contains_key(t3b) && lv[t3b] == 3);
            match (l2_table(m, root, va), l2_table(m, root, vb)) {
                (Some(t2a), Some(t2b)) => {
                    assert(links(m, lv, t3a, p3_index_spec(va) as int));
                    assert(links(m, lv, t3b, p3_index_spec(vb) as int));
                    assert(child_at(m, t3a, p3_index_spec(va) as int) == t2a);
                    assert(child_at(m, t3b, p3_index_spec(vb) as int) == t2b);
                    assert(m.contains_key(t2a) && lv[t2a] == 2);
                    assert(m.contains_key(t2b) && lv[t2b] == 2);
                    match (l1_table(m, root, va), l1_table(m, root, vb)) {
                        (Some(t1a), Some(t1b)) => {
                            assert(t1a == t1b);
                            assert(links(m, lv, t2a, p2_index_spec(va) as int));
                            assert(links(m, lv, t2b, p2_index_spec(vb) as int));
                            assert(child_at(m, t2a, p2_index_spec(va) as int) == t1a);
                            assert(child_at(m, t2b, p2_index_spec(vb) as int) == t1b);
                            assert(t2a == t2b && p2_index_spec(va) == p2_index_spec(vb));
                            assert(t3a == t3b && p3_index_spec(va) == p3_index_spec(vb));
                            assert(p4_index_spec(va) == p4_index_spec(vb));
                        },
                        _ => {
                            assert(false);
                        },
                    }
                },
                _ => {
                    assert(false);
                },
            }
        },
        _ => {
            assert(false);
        },
    }
}

/// Overwriting the leaf entry at `(t1, wi)` leaves the walk of every
/// virtual address that does not read that slot unchanged.
proof fn lemma_write_l1_other(
    m: TableStore,
    lv: Map<u64, int>,
    root: u64,
    t1: u64,
    wi: u64,
    e: u64,
    va2: u64,
)
    requires
        rows_wf(m),
        tree_inv(m, lv, root),
        m.contains_key(t1),
        lv[t1] == 1,
        wi < 512,
        l1_table(m, root, va2) == Some(t1) ==> p1_index_spec(va2) != wi,
    ensures
        walk(m.insert(t1, m[t1].update(wi as int, e)), root, va2) == walk(m, root, va2),
{
    let m2 = m.insert(t1, m[t1].update(wi as int, e));
    lemma_index_bounds(va2);
    let i4 = p4_index_spec(va2);
    let i3 = p3_index_spec(va2);
    let i2 = p2_index_spec(va2);
    let i1 = p1_index_spec(va2);
    assert(root != t1);
    assert(m2[root] == m[root]);
    assert(walk_step(m2, root, i4) == walk_step(m, root, i4));
    match walk_step(m, root, i4) {
        WalkStep::Next(t3) => {
            assert(links(m, lv, root, i4 as int));
            assert(child_at(m, root, i4 as int) == t3);
            assert(m.contains_key(t3) && lv[t3] == 3);
            assert(t3 != t1 && m2[t3] == m[t3]);
            assert(walk_step(m2, t3, i3) == walk_step(m, t3, i3));
            match walk_step(m, t3, i3) {
                WalkStep::Next(t2) => {
                    assert(links(m, lv, t3, i3 as int));
                    assert(child_at(m, t3, i3 as int) == t2);
                    assert(m.contains_key(t2) && lv[t2] == 2);
                    assert(t2 != t1 && m2[t2] == m[t2]);
                    assert(walk_step(m2, t2, i2) == walk_step(m, t2, i2));
                    match walk_step(m, t2, i2) {
                        WalkStep::Next(t1v) => {
                            assert(links(m, lv, t2, i2 as int));
                            assert(child_at(m, t2, i2 as int) == t1v);
                            assert(m.contains_key(t1v) && lv[t1v] == 1);
                            if t1v == t1 {
                                assert(l1_table(m, root, va2) == Some(t1));
                                assert(i1 != wi);
                                assert(m2[t1][i1 as int] == m[t1][i1 as int]);
                            } else {
                                assert(m2[t1v] == m[t1v]);
                            }
                        },
                        _ => {},
                    }
                },
                _ => {},
            }
        },
        _ => {},
    }
}

/// Overwriting the leaf entry that `va_p` routes to makes every address of
/// the same page translate according to the new entry.
proof fn lemma_write_l1_self(
    m: TableStore,
    lv: Map<u64, int>,
    root: u64,
    va_p: u64,
    t1: u64,
    e: u64,
    va2: u64,
)
    requires
        rows_wf(m),
        tree_inv(m, lv, root),
        l1_table(m, root, va_p) == Some(t1),
        same_slots(va2, va_p),
    ensures
        walk(m.insert(t1, m[t1].update(p1_index_spec(va_p) as int, e)), root, va2) == leaf_decode(
            e,
            va2,
        ),
{
    let wi = p1_index_spec(va_p);
    let m2 = m.insert(t1, m[t1].update(wi as int, e));
    lemma_index_bounds(va_p);
    lemma_index_bounds(va2);
    match l3_table(m, root, va_p) {
        Some(t3) => {
            assert(links(m, lv, root, p4_index_spec(va_p) as int));
            assert(child_at(m, root, p4_index_spec(va_p) as int) == t3);
            assert(m.contains_key(t3) && lv[t3] == 3);
            match l2_table(m, root, va_p) {
                Some(t2) => {
                    assert(links(m, lv, t3, p3_index_spec(va_p) as int));
                    assert(child_at(m, t3, p3_index_spec(va_p) as int) == t2);
                    assert(m.contains_key(t2) && lv[t2] == 2);
                    assert(links(m, lv, t2, p2_index_spec(va_p) as int));
                    assert(child_at(m, t2, p2_index_spec(va_p) as int) == t1);
                    assert(m.contains_key(t1) && lv[t1] == 1);
                    assert(root != t1 && t3 != t1 && t2 != t1);
                    assert(m2[root] == m[root] && m2[t3] == m[t3] && m2[t2] == m[t2]);
                    assert(walk_step(m2, root, p4_index_spec(va2)) == WalkStep::Next(t3));
                    assert(walk_step(m2, t3, p3_index_spec(va2)) == WalkStep::Next(t2));
                    assert(walk_step(m2, t2, p2_index_spec(va2)) == WalkStep::Next(t1));
                    assert(m2[t1][p1_index_spec(va2) as int] == e);
                },
                None => {
                    assert(false);
                },
            }
        },
        None => {
            assert(false);
        },
    }
}

/// No step of the walk beyond the fixed offset mapping is huge: every
/// present entry met at levels 4, 3 and 2 lacks the huge-page bit. When
/// this fails, installing a mapping is refused as unsupported.
pub open spec fn path_huge(m: TableStore, root: u64, va: u64) -> bool {
    match walk_step(m, root, p4_index_spec(va)) {
        WalkStep::HugeEntry => true,
        WalkStep::Absent => false,
        WalkStep::Next(t3) => match walk_step(m, t3, p3_index_spec(va)) {
            WalkStep::HugeEntry => true,
            WalkStep::Absent => false,
            WalkStep::Next(t2) => walk_step(m, t2, p2_index_spec(va)) is HugeEntry,
        },
    }
}

/// The present leaf entry for `va`, when the walk reaches one: installing
/// a mapping over it is refused rather than silently overwritten.
pub open spec fn existing_leaf(m: TableStore, root: u64, va: u64) -> Option<u64> {
    match l1_table(m, root, va) {
        Some(t1) => {
            if m.contains_key(t1) && entry_present(m[t1][p1_index_spec(va) as int]) {
                Some(m[t1][p1_index_spec(va) as int])
            } else {
                None
            }
        },
        None => None,
    }
}

/// How many intermediate tables a mapping of `va` still has to allocate:
/// one per missing level among 3, 2 and 1.
pub open spec fn tables_needed(m: TableStore, root: u64, va: u64) -> int {
    match walk_step(m, root, p4_index_spec(va)) {
        WalkStep::Next(t3) => match walk_step(m, t3, p3_index_spec(va)) {
            WalkStep::Next(t2) => match walk_step(m, t2, p2_index_spec(va)) {
                WalkStep::Next(t1) => 0,
                _ => 1,
            },
            _ => 2,
        },
        _ => 3,
    }
}

/// A mapping operation failed; fatal for this subsystem's scope.
#[derive(Clone, Copy, Debug, PartialEq, Eq, Structural)]
pub enum MapToError {
    /// The frame allocator was exhausted while a new intermediate table
    /// was needed. The walk is not transactional: parent tables already
    /// linked during the failed call remain linked.
    FrameAllocationFailed,
    /// An entry at level 4, 3 or 2 of the walk maps a huge page;
    /// unsupported.
    ParentEntryHugePage,
    /// The leaf entry already holds a mapping to this frame; re-mapping is
    /// an error, since a silent overwrite risks aliasing one frame from
    /// two pages.
    PageAlreadyMapped(PhysFrame),
}

/// The flush obligation returned by a successful mapping: until invoked,
/// the processor's translation cache may still serve the stale prior
/// translation for the page.
#[must_use]
#[derive(Clone, Copy, Debug, PartialEq, Eq, Structural)]
pub struct MapperFlush {
    /// The page whose cached translation must be invalidated.
    pub page: crate::addr::Page,
}

impl MapperFlush {
    /// Discharges the obligation. Invalidating the hardware translation
    /// cache entry is the machine layer's task; the modelled tables are
    /// already current, so nothing is left to do here.
    pub fn flush(self) {
    }
}

/// What `map_to` must return, given the store, the root, the target page
/// base, the frame to map and the number of frames the allocator still
/// offers: huge parents, existing mappings and exhaustion are refused, in
/// that order of detection, and anything else succeeds.
pub open spec fn map_result_spec(
    m: TableStore,
    root: u64,
    va: u64,
    avail: int,
) -> Result<MapperFlush, MapToError> {
    if path_huge(m, root, va) {
        Err(MapToError::ParentEntryHugePage)
    } else {
        match existing_leaf(m, root, va) {
            Some(e) => Err(MapToError::PageAlreadyMapped(PhysFrame { base: entry_addr(e) })),
            None => {
                if avail < tables_needed(m, root, va) {
                    Err(MapToError::FrameAllocationFailed)
                } else {
                    Ok(MapperFlush { page: crate::addr::Page { base: page_base_spec(va) } })
                }
            },
        }
    }
}

impl OffsetPageTable {
    /// Makes the entry at `(tb, idx)` link a one-level-down table, allocating
    /// and linking a fresh cleared one when the entry is not present.
    /// Linking a fresh table changes no translation.
    fn ensure_child<A: FrameAllocator>(
        &mut self,
        tb: u64,
        idx: u64,
        frame_allocator: &mut A,
    ) -> (r: Result<u64, MapToError>)
        requires
            old(self).inv(),
            old(frame_allocator).wf(),
            old(self).store@.contains_key(tb),
            2 <= old(self).levels@[tb],
            idx < 512,
            forall|k: int|
                0 <= k < old(frame_allocator).frames().len() ==> page_aligned(
                    #[trigger] old(frame_allocator).frames()[k]) && phys_bounded(
                    old(frame_allocator).frames()[k]) && !old(self).store@.contains_key(
                    old(frame_allocator).frames()[k]),
        ensures
            final(self).inv(),
            final(frame_allocator).wf(),
            final(self).root == old(self).root,
            final(self).phys_offset == old(self).phys_offset,
            match r {
                Ok(t) => {
                    &&& final(self).store@.contains_key(t)
                    &&& final(self).levels@[t] == old(self).levels@[tb] - 1
                    &&& walk_step(final(self).store@, tb, idx) == WalkStep::Next(t)
                    &&& match walk_step(old(self).store@, tb, idx) {
                        WalkStep::Next(t0) => {
                            &&& t == t0
                            &&& *final(self) == *old(self)
                            &&& *final(frame_allocator) == *old(frame_allocator)
                        },
                        WalkStep::Absent => {
                            &&& old(frame_allocator).frames().len() > 0
                            &&& t == old(frame_allocator).frames()[0]
                            &&& final(frame_allocator).frames() == old(
                                frame_allocator).frames().skip(1)
                            &&& final(self).store@ == old(self).store@.insert(t, zero_table())
                                .insert(tb, old(self).store@[tb].update(idx as int, t | 3))
                            &&& final(self).levels@ == old(self).levels@.insert(
                                t,
                                old(self).levels@[tb] - 1,
                            )
                            &&& forall|va: u64|
                                walk(final(self).store@, old(self).root, va) == walk(
                                    old(self).store@,
                                    old(self).root,
                                    va,
                                )
                        },
                        WalkStep::HugeEntry => false,
                    }
                },
                Err(e) => {
                    &&& *final(self) == *old(self)
                    &&& final(frame_allocator).frames() == old(frame_allocator).frames()
                    &&& (e == MapToError::ParentEntryHugePage ==> *final(frame_allocator) == *old(
                        frame_allocator,
                    ))
                    &&& (e == MapToError::ParentEntryHugePage <==> walk_step(
                        old(self).store@,
                        tb,
                        idx,
                    ) is HugeEntry)
                    &&& (e == MapToError::FrameAllocationFailed <==> walk_step(
                        old(self).store@,
                        tb,
                        idx,
                    ) is Absent && old(frame_allocator).frames().len() == 0)
                    &&& !(e is PageAlreadyMapped)
                },
            },
    {
        let s = self.step(tb, idx);
        match s {
            WalkStep::HugeEntry => Err(MapToError::ParentEntryHugePage),
            WalkStep::Next(t) => {
                proof {
                    assert(links(self.store@, self.levels@, tb, idx as int));
                    assert(child_at(self.store@, tb, idx as int) == t);
                }
                Ok(t)
            },
            WalkStep::Absent => {
                match frame_allocator.allocate_frame() {
                    None => Err(MapToError::FrameAllocationFailed),
                    Some(new_frame) => {
                        let f = new_frame.base;
                        let ghost m0 = self.store@;
                        let ghost lv0 = self.levels@;
                        let ghost lvt = self.levels@[tb];
                        self.insert_table(f);
                        self.write_entry(tb, idx, f | 3);
                        proof {
                            self.levels@ = lv0.insert(f, lvt - 1);
                            lemma_link_fresh_tree_inv(m0, lv0, old(self).root, tb, idx, f);
                            lemma_link_entry(f);
                            assert(self.store@ == m0.insert(f, zero_table()).insert(
                                tb,
                                m0[tb].update(idx as int, f | 3),
                            ));
                            assert forall|va: u64|
                                walk(self.store@, old(self).root, va) == walk(
                                    m0,
                                    old(self).root,
                                    va,
                                ) by {
                                lemma_link_fresh_preserves_walk(
                                    m0,
                                    lv0,
                                    old(self).root,
                                    tb,
                                    idx,
                                    f,
                                    va,
                                );
                            }
                            assert(walk_step(self.store@, tb, idx) == WalkStep::Next(f));
                        }
                        Ok(f)
                    },
                }
            },
        }
    }
}

impl OffsetPageTable {
    /// Installs a mapping of `page` to `frame` with the leaf attributes
    /// `flags`, creating intermediate tables from `frame_allocator` as
    /// needed, and returns the flush obligation for the page.
    ///
    /// Exactly one of four outcomes occurs, decided in walk order: a
    /// huge-page parent entry is refused; an existing leaf mapping is
    /// refused (error on existing mapping, never a silent overwrite);
    /// allocator exhaustion while an intermediate table is needed fails the
    /// call, leaving already-linked parent tables in place but no
    /// translation changed; otherwise the mapping is installed, every
    /// address of the page translates through the new leaf entry, and no
    /// other address changes its translation.
    ///
    /// The allocator must offer only frames that are aligned, within the
    /// physical width, not yet holding a table, and pairwise distinct.
    #[verifier::rlimit(60)]
    pub fn map_to<A: FrameAllocator>(
        &mut self,
        page: Page,
        frame: PhysFrame,
        flags: PageTableFlags,
        frame_allocator: &mut A,
    ) -> (r: Result<MapperFlush, MapToError>)
        requires
            old(self).inv(),
            page.wf(),
            frame.wf(),
            flags.wf(),
            old(frame_allocator).wf(),
            forall|k: int|
                0 <= k < old(frame_allocator).frames().len() ==> page_aligned(
                    #[trigger] old(frame_allocator).frames()[k]) && phys_bounded(
                    old(frame_allocator).frames()[k]) && !old(self).store@.contains_key(
                    old(frame_allocator).frames()[k]),
            old(frame_allocator).frames().no_duplicates(),
        ensures
            final(self).inv(),
            final(frame_allocator).wf(),
            final(self).root == old(self).root,
            final(self).phys_offset == old(self).phys_offset,
            r == map_result_spec(
                old(self).store@,
                old(self).root,
                page.base,
                old(frame_allocator).frames().len() as int,
            ),
            r is Ok ==> ({
                let n = tables_needed(old(self).store@, old(self).root, page.base);
                &&& 0 <= n <= old(frame_allocator).frames().len()
                &&& final(frame_allocator).frames() == old(frame_allocator).frames().skip(n)
                &&& forall|va2: u64|
                    same_slots(va2, page.base) ==> walk(
                        final(self).store@,
                        old(self).root,
                        va2,
                    ) == leaf_decode(frame.base | flags.bits, va2)
                &&& forall|va2: u64|
                    !same_slots(va2, page.base) ==> walk(
                        final(self).store@,
                        old(self).root,
                        va2,
                    ) == walk(old(self).store@, old(self).root, va2)
                &&& forall|k: int|
                    n <= k < old(frame_allocator).frames().len()
                        ==> !final(self).store@.contains_key(
                        #[trigger] old(frame_allocator).frames()[k])
            }),
            r is Err ==> forall|va2: u64|
                walk(final(self).store@, old(self).root, va2) == walk(
                    old(self).store@,
                    old(self).root,
                    va2,
                ),
            (r == Err::<MapperFlush, MapToError>(MapToError::ParentEntryHugePage) || r matches Err(
                MapToError::PageAlreadyMapped(_),
            )) ==> *final(self) == *old(self) && *final(frame_allocator) == *old(frame_allocator),
            r == Err::<MapperFlush, MapToError>(MapToError::FrameAllocationFailed) ==> final(
                frame_allocator).frames().len() == 0,
    {
        let ghost m0 = self.store@;
        let ghost lv0 = self.levels@;
        let ghost a0 = frame_allocator.frames();
        let ghost rt = self.root;
        let va = page.base;
        proof {
            lemma_index_bounds(va);
            lemma_offset_in_page(va, 0);
        }
        let i4 = crate::addr::p4_index(va);
        let i3 = crate::addr::p3_index(va);
        let i2 = crate::addr::p2_index(va);
        let i1 = crate::addr::p1_index(va);
        let rootb = self.root;

        let t3 = match self.ensure_child(rootb, i4, frame_allocator) {
            Err(e) => {
                proof {
                    if walk_step(m0, rt, i4) is HugeEntry {
                        assert(path_huge(m0, rt, va));
                    } else {
                        assert(walk_step(m0, rt, i4) is Absent && a0.len() == 0);
                        assert(!path_huge(m0, rt, va));
                        assert(existing_leaf(m0, rt, va) is None);
                        assert(tables_needed(m0, rt, va) == 3);
                    }
                }
                return Err(e);
            },
            Ok(t) => t,
        };
        let ghost m1 = self.store@;
        let ghost lv1 = self.levels@;
        let ghost a1 = frame_allocator.frames();
        let ghost c1: int = if walk_step(m0, rt, i4) is Absent { 1int } else { 0int };
        proof {
            assert(a1 == a0.skip(c1));
            if c1 == 1 {
                assert(forall|x: u64| m1.contains_key(x) <==> m0.contains_key(x) || x == a0[0]);
            } else {
                assert(m1 == m0);
                assert(a0.skip(0) =~= a0);
            }
            assert forall|k: int| 0 <= k < a1.len() implies page_aligned(#[trigger] a1[k])
                && phys_bounded(a1[k]) && !m1.contains_key(a1[k]) && a1[k] == a0[k + c1] by {
                assert(a1[k] == a0[k + c1]);
            }
            assert(forall|vx: u64| walk(m1, rt, vx) == walk(m0, rt, vx));
        }
        let t2 = match self.ensure_child(t3, i3, frame_allocator) {
            Err(e) => {
                proof {
                    if walk_step(m1, t3, i3) is HugeEntry {
                        assert(c1 == 0) by {
                            if c1 == 1 {
                                assert(m1[t3] == zero_table());
                                lemma_zero_entry();
                            }
                        }
                        assert(m1 == m0);
                        assert(path_huge(m0, rt, va));
                    } else {
                        assert(walk_step(m1, t3, i3) is Absent && a1.len() == 0);
                        assert(!path_huge(m0, rt, va));
                        assert(existing_leaf(m0, rt, va) is None) by {
                            if c1 == 0 {
                                assert(l2_table(m0, rt, va) is None);
                            }
                        }
                        if c1 == 1 {
                            assert(tables_needed(m0, rt, va) == 3);
                        } else {
                            assert(m1 == m0);
                            assert(tables_needed(m0, rt, va) == 2);
                        }
                        assert(a0.len() == c1);
                        assert(a0.len() < tables_needed(m0, rt, va));
                    }
                    assert forall|va2: u64|
                        walk(self.store@, rt, va2) == walk(m0, rt, va2) by {}
                }
                return Err(e);
            },
            Ok(t) => t,
        };
        let ghost m2 = self.store@;
        let ghost lv2 = self.levels@;
        let ghost a2 = frame_allocator.frames();
        let ghost c2: int = if walk_step(m1, t3, i3) is Absent { 1int } else { 0int };
        proof {
            assert(a2 == a1.skip(c2));
            assert(a2 =~= a0.skip(c1 + c2)) by {
                assert forall|k: int| 0 <= k < a2.len() implies a2[k] == a0.skip(c1 + c2)[k] by {
                    assert(a2[k] == a1[k + c2]);
                    assert(a1[k + c2] == a0[k + c2 + c1]);
                }
            }
            if c2 == 1 {
                assert(forall|x: u64| m2.contains_key(x) <==> m1.contains_key(x) || x == a1[0]);
                assert(a1[0] == a0[c1]);
            } else {
                assert(m2 == m1);
            }
            assert forall|k: int| 0 <= k < a2.len() implies page_aligned(#[trigger] a2[k])
                && phys_bounded(a2[k]) && !m2.contains_key(a2[k]) && a2[k] == a0[k + c1 + c2] by {
                assert(a2[k] == a0[k + c1 + c2]);
            }
            assert(forall|vx: u64| walk(m2, rt, vx) == walk(m1, rt, vx));
            assert(walk_step(m2, rt, i4) == WalkStep::Next(t3)) by {
                assert(m1.contains_key(rt));
                if c2 == 1 {
                    assert(t3 != a1[0]);
                    assert(rt != a1[0]);
                    assert(rt != t3);
                    assert(m2[rt] == m1[rt]);
                }
            }
        }
        let t1 = match self.ensure_child(t2, i2, frame_allocator) {
            Err(e) => {
                proof {
                    if walk_step(m2, t2, i2) is HugeEntry {
                        assert(c2 == 0) by {
                            if c2 == 1 {
                                assert(m2[t2] == zero_table());
                                lemma_zero_entry();
                            }
                        }
                        assert(c1 == 0) by {
                            if c1 == 1 {
                                assert(m1[t3] == zero_table());
                                lemma_zero_entry();
                            }
                        }
                        assert(m2 == m0);
                        assert(path_huge(m0, rt, va));
                    } else {
                        assert(walk_step(m2, t2, i2) is Absent && a2.len() == 0);
                        assert(!path_huge(m0, rt, va)) by {
                            if c1 == 1 {
                                assert(m1[t3] == zero_table());
                                lemma_zero_entry();
                            } else if c2 == 1 {
                                assert(m2[t2] == zero_table());
                                lemma_zero_entry();
                            }
                        }
                        assert(existing_leaf(m0, rt, va) is None);
                        assert(a0.len() == c1 + c2);
                        assert(a0.len() < tables_needed(m0, rt, va));
                    }
                    assert forall|va2: u64|
                        walk(self.store@, rt, va2) == walk(m0, rt, va2) by {}
                }
                return Err(e);
            },
            Ok(t) => t,
        };
        let ghost m3 = self.store@;
        let ghost lv3 = self.levels@;
        let ghost a3 = frame_allocator.frames();
        let ghost c3: int = if walk_step(m2, t2, i2) is Absent { 1int } else { 0int };
        let ghost n = c1 + c2 + c3;
        proof {
            assert(a3 == a2.skip(c3));
            assert(a3 =~= a0.skip(n)) by {
                assert forall|k: int| 0 <= k < a3.len() implies a3[k] == a0.skip(n)[k] by {
                    assert(a3[k] == a2[k + c3]);
                    assert(a2[k + c3] == a0[k + c3 + c1 + c2]);
                }
            }
            if c3 == 1 {
                assert(forall|x: u64| m3.contains_key(x) <==> m2.contains_key(x) || x == a2[0]);
                assert(a2[0] == a0[c1 + c2]);
            } else {
                assert(m3 == m2);
            }
            assert(forall|vx: u64| walk(m3, rt, vx) == walk(m2, rt, vx));
            assert(walk_step(m3, t2, i2) == WalkStep::Next(t1));
            assert(walk_step(m3, t3, i3) == WalkStep::Next(t2)) by {
                assert(m2.contains_key(t3));
                if c3 == 1 {
                    assert(t3 != a2[0] && t2 != a2[0]);
                    assert(lv2[t3] == 3 && lv2[t2] == 2);
                    assert(t3 != t2);
                    assert(m3[t3] == m2[t3]);
                }
            }
            assert(walk_step(m3, rt, i4) == WalkStep::Next(t3)) by {
                assert(m2.contains_key(rt));
                if c3 == 1 {
                    assert(rt != a2[0]);
                    assert(lv2[rt] == 4 && lv2[t2] == 2);
                    assert(rt != t2);
                    assert(m3[rt] == m2[rt]);
                }
            }
            assert(l1_table(m3, rt, va) == Some(t1));
            assert(m3.contains_key(t1) && lv3[t1] == 1);
            assert(tables_needed(m0, rt, va) == n) by {
                if c1 == 1 {
                    assert(m1[t3] == zero_table());
                    lemma_zero_entry();
                } else if c2 == 1 {
                    assert(m2[t2] == zero_table());
                    lemma_zero_entry();
                }
            }
            assert(!path_huge(m0, rt, va)) by {
                if c1 == 1 {
                    assert(m1[t3] == zero_table());
                    lemma_zero_entry();
                } else if c2 == 1 {
                    assert(m2[t2] == zero_table());
                    lemma_zero_entry();
                }
            }
            assert(a0.len() >= n);
        }
        let e1 = self.entry_at(t1, i1);
        if e1 & FLAG_PRESENT == FLAG_PRESENT {
            proof {
                assert(entry_present(e1));
                assert(n == 0) by {
                    lemma_zero_entry();
                    if c3 == 1 {
                        assert(m3[t1] == zero_table());
                    } else if c2 == 1 {
                        assert(m2[t2] == zero_table());
                    } else if c1 == 1 {
                        assert(m1[t3] == zero_table());
                    }
                }
                assert(m3 == m0);
                assert(existing_leaf(m0, rt, va) == Some(e1));
            }
            return Err(MapToError::PageAlreadyMapped(PhysFrame { base: e1 & ENTRY_ADDR_MASK }));
        }
        proof {
            assert(existing_leaf(m0, rt, va) is None) by {
                if n == 0 {
                    assert(m3 == m0);
                } else {
                    if c1 == 1 {
                        assert(m1[t3] == zero_table());
                        lemma_zero_entry();
                    } else if c2 == 1 {
                        assert(m2[t2] == zero_table());
                        lemma_zero_entry();
                    } else {
                        assert(m3[t1] == zero_table());
                        lemma_zero_entry();
                    }
                }
            }
        }
        let new_e = frame.start_address().as_u64() | flags.bits;
        self.write_entry(t1, i1, new_e);
        proof {
            let m4 = self.store@;
            assert(m4 == m3.insert(t1, m3[t1].update(i1 as int, new_e)));
            lemma_write_l1_tree_inv(m3, lv3, rt, t1, i1, new_e);
            assert forall|va2: u64| same_slots(va2, page.base) implies walk(m4, rt, va2)
                == leaf_decode(frame.base | flags.bits, va2) by {
                lemma_write_l1_self(m3, lv3, rt, va, t1, new_e, va2);
            }
            assert forall|va2: u64| !same_slots(va2, page.base) implies walk(m4, rt, va2) == walk(
                m0,
                rt,
                va2,
            ) by {
                if l1_table(m3, rt, va2) == Some(t1) {
                    lemma_shared_l1(m3, lv3, rt, va, va2);
                    assert(p1_index_spec(va2) != i1);
                }
                lemma_write_l1_other(m3, lv3, rt, t1, i1, new_e, va2);
                assert(walk(m3, rt, va2) == walk(m0, rt, va2));
            }
            assert forall|k: int| n <= k < a0.len() implies !m4.contains_key(
                #[trigger] a0[k]) by {
                assert(!m0.contains_key(a0[k]));
                assert(m4.contains_key(a0[k]) == m3.contains_key(a0[k]));
            }
        }
        Ok(MapperFlush { page })
    }
}

impl OffsetPageTable {
    /// Records a fresh, cleared table at base `b`, for building synthetic
    /// table states by hand; refused when a table already sits there or the
    /// base is not an aligned in-width frame base. Never changes an
    /// existing translation on its own: a cleared table is linked nowhere.
    pub fn add_table(&mut self, b: u64) -> (ok: bool)
        requires
            old(self).store_wf(),
        ensures
            final(self).store_wf(),
            final(self).root == old(self).root,
            final(self).phys_offset == old(self).phys_offset,
            ok == (!old(self).store@.contains_key(b) && page_aligned(b) && phys_bounded(b)),
            ok ==> final(self).store@ == old(self).store@.insert(b, zero_table()),
            !ok ==> *final(self) == *old(self),
    {
        let aligned_in_width = b % 4096 == 0 && b < PHYS_LIMIT;
        if !aligned_in_width {
            return false;
        }
        match self.find_table(b) {
            Some(_) => false,
            None => {
                self.insert_table(b);
                proof {
                    self.levels@ = self.levels@.insert(b, 1);
                }
                true
            },
        }
    }

    /// Writes a raw entry into the stored table at `table`, for building
    /// synthetic table states by hand; refused when no such table is stored
    /// or the index is out of range. The caller takes over the tree
    /// discipline: after a raw write, only translation is specified.
    pub fn set_entry(&mut self, table: u64, index: u64, entry: u64) -> (ok: bool)
        requires
            old(self).store_wf(),
        ensures
            final(self).store_wf(),
            final(self).root == old(self).root,
            final(self).phys_offset == old(self).phys_offset,
            ok == (old(self).store@.contains_key(table) && index < 512),
            ok ==> final(self).store@ == old(self).store@.insert(
                table,
                old(self).store@[table].update(index as int, entry),
            ),
            !ok ==> *final(self) == *old(self),
    {
        if index >= 512 {
            return false;
        }
        match self.find_table(table) {
            None => false,
            Some(_) => {
                self.write_entry(table, index, entry);
                true
            },
        }
    }
}

/// Maps the given page of virtual memory to the physical frame that holds
/// the text-mode display buffer, present and writable, and flushes the
/// page's stale cached translation.
///
/// The caller must hand in a mapper state and an allocator under which the
/// mapping cannot fail: no huge parent entry on the page's walk, no
/// existing leaf mapping, and enough frames for the missing intermediate
/// tables, each fresh, aligned, in-width and distinct.
pub fn create_example_mapping<A: FrameAllocator>(
    page: Page,
    mapper: &mut OffsetPageTable,
    frame_allocator: &mut A,
)
    requires
        old(mapper).inv(),
        page.wf(),
        old(frame_allocator).wf(),
        forall|k: int|
            0 <= k < old(frame_allocator).frames().len() ==> page_aligned(
                #[trigger] old(frame_allocator).frames()[k]) && phys_bounded(
                old(frame_allocator).frames()[k]) && !old(mapper).store@.contains_key(
                old(frame_allocator).frames()[k]),
        old(frame_allocator).frames().no_duplicates(),
        !path_huge(old(mapper).store@, old(mapper).root, page.base),
        existing_leaf(old(mapper).store@, old(mapper).root, page.base) is None,
        tables_needed(old(mapper).store@, old(mapper).root, page.base) <= old(
            frame_allocator).frames().len(),
    ensures
        final(mapper).inv(),
        final(frame_allocator).wf(),
        final(mapper).root == old(mapper).root,
        final(mapper).phys_offset == old(mapper).phys_offset,
        forall|va2: u64|
            same_slots(va2, page.base) ==> walk(final(mapper).store@, old(mapper).root, va2)
                == Translation::Mapped(0xb8000u64 | page_offset_spec(va2)),
        forall|va2: u64|
            !same_slots(va2, page.base) ==> walk(final(mapper).store@, old(mapper).root, va2)
                == walk(old(mapper).store@, old(mapper).root, va2),
{
    let frame = PhysFrame::containing_address(PhysAddr::new(0xb8000));
    proof {
        assert(0xb8000u64 & 0xffff_ffff_ffff_f000u64 == 0xb8000u64) by (bit_vector);
    }
    let flags = PageTableFlags::new(FLAG_PRESENT | FLAG_WRITABLE);
    proof {
        assert((1u64 | 2u64) & 0xfffu64 == 3u64) by (bit_vector);
        lemma_leaf_encode(frame, flags);
        assert(flags.is_present() && !flags.is_huge()) by {
            assert(3u64 & 1u64 == 1u64 && 3u64 & 0x80u64 != 0x80u64) by (bit_vector);
        }
    }
    let result = mapper.map_to(page, frame, flags, frame_allocator);
    match result {
        Ok(flush) => {
            flush.flush();
            proof {
                assert forall|va2: u64| same_slots(va2, page.base) implies walk(
                    mapper.store@,
                    old(mapper).root,
                    va2,
                ) == Translation::Mapped(0xb8000u64 | page_offset_spec(va2)) by {
                    assert(leaf_decode(frame.base | flags.bits, va2) == Translation::Mapped(
                        entry_addr(frame.base | flags.bits) | page_offset_spec(va2)));
                }
            }
        },
        Err(_) => {
            proof {
                assert(false);
            }
        },
    }
}

/// Round trip: once a mapping of `page` to `frame` with present, non-huge
/// leaf attributes is installed, every byte of the page translates to the
/// matching byte of the frame: for `k < 4096`, translating
/// `page.base + k` yields `frame.base + k`.
pub proof fn lemma_map_round_trip(
    m: TableStore,
    root: u64,
    page: Page,
    frame: PhysFrame,
    flags: PageTableFlags,
    k: u64,
)
    requires
        page.wf(),
        frame.wf(),
        flags.wf(),
        flags.is_present(),
        !flags.is_huge(),
        k < 4096,
        forall|va2: u64|
            same_slots(va2, page.base) ==> walk(m, root, va2) == leaf_decode(
                frame.base | flags.bits,
                va2,
            ),
    ensures
        page.base + k <= u64::MAX,
        walk(m, root, (page.base + k) as u64) == Translation::Mapped((frame.base + k) as u64),
        translate_result(m, root, (page.base + k) as u64) == Ok::<
            Option<PhysAddr>,
            TranslateError,
        >(Some(PhysAddr { addr: (frame.base + k) as u64 })),
{
    lemma_offset_in_page(page.base, k);
    lemma_offset_in_page(frame.base, k);
    lemma_leaf_encode(frame, flags);
    let va2 = (page.base + k) as u64;
    assert(same_slots(va2, page.base));
    assert(walk(m, root, va2) == leaf_decode(frame.base | flags.bits, va2));
    assert(page_offset_spec(va2) == k);
}

/// Unmapped miss: starting from a table hierarchy that maps nothing, a
/// mapping of one page leaves every canonical address whose page was never
/// the target translating to a miss.
pub proof fn lemma_unmapped_miss(
    m0: TableStore,
    m1: TableStore,
    root: u64,
    page: Page,
    addr: u64,
)
    requires
        forall|va: u64| walk(m0, root, va) == Translation::Unmapped,
        forall|va2: u64|
            !same_slots(va2, page.base) ==> walk(m1, root, va2) == walk(m0, root, va2),
        page.wf(),
        canonical(addr),
        page_base_spec(addr) != page.base,
    ensures
        walk(m1, root, addr) == Translation::Unmapped,
        translate_result(m1, root, addr) == Ok::<Option<PhysAddr>, TranslateError>(None),
{
    if same_slots(addr, page.base) {
        crate::addr::lemma_same_slots_same_page(addr, page.base);
        lemma_offset_in_page(page.base, 0);
    }
}

/// Builds the exclusive page-table view used by the rest of the kernel.
///
/// The caller reads the base of the active level-4 table from the hardware
/// control register once at boot and hands it in together with the
/// physical-memory offset; this subsystem starts from a cleared level-4
/// table in that frame, so initially nothing is mapped.
pub fn init(level_4_frame: PhysFrame, physical_memory_offset: VirtAddr) -> (r: OffsetPageTable)
    requires
        level_4_frame.wf(),
        physical_memory_offset.wf(),
    ensures
        r.inv(),
        r.root == level_4_frame.base,
        r.phys_offset == physical_memory_offset.addr,
        r.store@ == Map::<u64, Seq<u64>>::empty().insert(level_4_frame.base, zero_table()),
        forall|va: u64| walk(r.store@, r.root, va) == Translation::Unmapped,
{
    let root = level_4_frame.start_address().as_u64();
    let table: Vec<u64> = vec![0u64; 512];
    let mut bases: Vec<u64> = Vec::new();
    let mut tables: Vec<Vec<u64>> = Vec::new();
    bases.push(root);
    tables.push(table);
    let r = OffsetPageTable {
        phys_offset: physical_memory_offset.as_u64(),
        root,
        bases,
        tables,
        store: Ghost(Map::<u64, Seq<u64>>::empty().insert(root, zero_table())),
        slot: Ghost(Map::<u64, int>::empty().insert(root, 0)),
        levels: Ghost(Map::<u64, int>::empty().insert(root, 4)),
    };
    proof {
        assert(r.tables@[0]@ =~= zero_table());
        assert(r.levels@.dom() =~= r.store@.dom());
        assert(r.bases@[0] == root);
        assert forall|b: u64, i: int| links(r.store@, r.levels@, b, i) implies false by {
            assert(b == root);
            assert(r.store@[b][i] == 0u64);
            assert(!entry_present(0u64)) by (bit_vector);
        }
        assert forall|va: u64| walk(r.store@, r.root, va) == Translation::Unmapped by {
            lemma_index_bounds(va);
            assert(r.store@[root][p4_index_spec(va) as int] == 0u64);
            assert(!entry_present(0u64)) by (bit_vector);
        }
    }
    r
}

} // verus!
