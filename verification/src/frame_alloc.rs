//! Physical-frame allocation from the boot-time memory map.
//!
//! The boot memory descriptor is an ordered sequence of frame-aligned
//! regions. Conceptually all `Usable` regions are concatenated into one
//! stream of 4096-byte frames; the allocator returns the frame at stream
//! position `N` on its `N`-th call and reports exhaustion once the stream
//! is spent. Frames are never returned to a pool: bootstrap-time
//! allocation only.
//!
//! Instead of re-deriving the stream from scratch on every call, the
//! allocator keeps a persistent cursor (region index, byte offset within
//! the region) and advances it incrementally, which preserves the same
//! `N`-th frame for the same `N` while avoiding a quadratic rescan.

use vstd::prelude::*;

use crate::addr::{page_aligned, phys_bounded, PhysFrame};

verus! {

/// What a boot memory region may be used for.
#[derive(Clone, Copy, Debug, PartialEq, Eq, Structural)]
pub enum RegionKind {
    /// Genuinely free memory the allocator may hand out.
    Usable,
    /// Firmware-reserved memory; never allocated.
    Reserved,
    /// Any other occupied memory (kernel image, boot structures, ...).
    Other,
}

/// One region of the boot memory descriptor: the physical addresses
/// `start <= a < end`, with frame-aligned boundaries.
#[derive(Clone, Copy, Debug, PartialEq, Eq, Structural)]
pub struct MemoryRegion {
    /// First physical address of the region.
    pub start: u64,
    /// First physical address past the region.
    pub end: u64,
    /// What the region may be used for.
    pub kind: RegionKind,
}

impl MemoryRegion {
    /// Frame-aligned, non-empty-or-forward boundaries within the physical
    /// width.
    pub open spec fn wf(self) -> bool {
        &&& page_aligned(self.start)
        &&& page_aligned(self.end)
        &&& self.start <= self.end
        &&& self.end <= 0x0010_0000_0000_0000
    }
}

/// The region list is well-formed and ordered: regions are sorted by
/// address and do not overlap.
pub open spec fn regions_wf(rs: Seq<MemoryRegion>) -> bool {
    &&& forall|i: int| 0 <= i < rs.len() ==> #[trigger] rs[i].wf()
    &&& forall|i: int| 0 <= i < rs.len() - 1 ==> #[trigger] rs[i].end <= rs[i + 1].start
}

/// The frames a usable region still offers from byte offset `off` on;
/// empty for any other kind of region.
pub open spec fn region_frames_from(r: MemoryRegion, off: u64) -> Seq<u64> {
    if r.kind == RegionKind::Usable && r.start + off <= r.end {
        Seq::new(((r.end - r.start - off) / 4096) as nat, |i: int| (r.start + off + 4096 * i) as u64)
    } else {
        Seq::empty()
    }
}

/// The remaining frame stream: what region `ri` offers from byte offset
/// `off` on, followed by everything the later regions offer.
pub open spec fn frames_from(rs: Seq<MemoryRegion>, ri: int, off: u64) -> Seq<u64>
    decreases rs.len() - ri,
{
    if ri < 0 || ri >= rs.len() {
        Seq::empty()
    } else {
        region_frames_from(rs[ri], off) + frames_from(rs, ri + 1, 0)
    }
}

/// The full frame stream of a memory map: all frames of all usable
/// regions, in address order.
pub open spec fn usable_frames(rs: Seq<MemoryRegion>) -> Seq<u64> {
    frames_from(rs, 0, 0)
}

/// The cursor points into region `ri` at aligned byte offset `off`, or one
/// past the last region with offset zero.
pub open spec fn cursor_wf(rs: Seq<MemoryRegion>, ri: int, off: u64) -> bool {
    &&& 0 <= ri <= rs.len()
    &&& ri < rs.len() ==> page_aligned(off) && off <= rs[ri].end - rs[ri].start
    &&& ri == rs.len() ==> off == 0
}

proof fn lemma_div_nonneg(d: int)
    by (nonlinear_arith)
    requires
        d >= 0,
    ensures
        d / 4096 >= 0,
{
}

proof fn lemma_div_pos(d: int)
    by (nonlinear_arith)
    requires
        d >= 4096,
    ensures
        d / 4096 >= 1,
{
}

proof fn lemma_div_step(d: int)
    by (nonlinear_arith)
    requires
        d >= 4096,
    ensures
        (d - 4096) / 4096 == d / 4096 - 1,
{
}

proof fn lemma_idx_bound(i: int, d: int)
    by (nonlinear_arith)
    requires
        0 <= i < d / 4096,
    ensures
        4096 * i + 4096 <= d,
        4096 * i >= 0,
{
}

proof fn lemma_aligned_sum(a: int, b: int, i: int)
    by (nonlinear_arith)
    requires
        a % 4096 == 0,
        b % 4096 == 0,
        a + b + 4096 * i >= 0,
    ensures
        (a + b + 4096 * i) % 4096 == 0,
{
}

proof fn lemma_aligned_diff(a: int, b: int, c: int)
    by (nonlinear_arith)
    requires
        a % 4096 == 0,
        b % 4096 == 0,
        c % 4096 == 0,
        a - b - c > 0,
    ensures
        a - b - c >= 4096,
{
}

/// Every frame the stream still offers is frame-aligned, lies within the
/// physical width at or past the cursor, and occurs only once.
pub proof fn lemma_frames_from_props(rs: Seq<MemoryRegion>, ri: int, off: u64)
    requires
        regions_wf(rs),
        cursor_wf(rs, ri, off),
    ensures
        forall|k: int|
            0 <= k < frames_from(rs, ri, off).len() ==> page_aligned(
                #[trigger] frames_from(rs, ri, off)[k]) && phys_bounded(frames_from(rs, ri, off)[k]),
        forall|k: int|
            0 <= k < frames_from(rs, ri, off).len() && ri < rs.len() ==> rs[ri].start + off
                <= #[trigger] frames_from(rs, ri, off)[k],
        frames_from(rs, ri, off).no_duplicates(),
    decreases rs.len() - ri,
{
    if ri < 0 || ri >= rs.len() {
        assert(frames_from(rs, ri, off) =~= Seq::<u64>::empty());
    } else {
        let r = rs[ri];
        let head = region_frames_from(r, off);
        let rest = frames_from(rs, ri + 1, 0);
        let fs = frames_from(rs, ri, off);
        assert(r.wf());
        if ri + 1 < rs.len() {
            assert(rs[ri + 1].wf());
        }
        assert(cursor_wf(rs, ri + 1, 0));
        lemma_frames_from_props(rs, ri + 1, 0);
        let d = r.end - r.start - off;
        lemma_div_nonneg(if d >= 0 { d } else { 0 });
        assert forall|k: int| 0 <= k < head.len() implies page_aligned(#[trigger] head[k])
            && phys_bounded(head[k]) && r.start + off <= head[k] && head[k] + 4096 <= r.end by {
            lemma_idx_bound(k, d);
            lemma_aligned_sum(r.start as int, off as int, k);
        }
        if ri + 1 < rs.len() {
            assert(rs[ri].end <= rs[ri + 1].start);
        }
        assert forall|i: int, j: int|
            0 <= i < fs.len() && 0 <= j < fs.len() && i != j implies fs[i] != fs[j] by {
            let a = if i < j { i } else { j };
            let b = if i < j { j } else { i };
            if b < head.len() {
                lemma_idx_bound(a, d);
                lemma_idx_bound(b, d);
                assert(fs[a] == head[a] && fs[b] == head[b]);
            } else if a >= head.len() {
                assert(fs[a] == rest[a - head.len()] && fs[b] == rest[b - head.len()]);
                assert(ri + 1 < rs.len());
            } else {
                assert(fs[a] == head[a] && fs[b] == rest[b - head.len()]);
                assert(ri + 1 < rs.len());
                assert(head[a] < r.end);
                assert(rest[b - head.len()] >= r.end);
            }
        }
        assert(fs.no_duplicates());
    }
}

/// Frame-allocation capability: hands out unused physical frames, or
/// reports exhaustion.
///
/// `frames()` is the stream of frames the allocator will still produce, in
/// order; each call pops its head. Implementations must never produce a
/// frame twice.
pub trait FrameAllocator: Sized {
    /// The frames this allocator will still hand out, in order.
    spec fn frames(&self) -> Seq<u64>;

    /// The allocator's internal invariant.
    spec fn wf(&self) -> bool;

    /// Returns the next frame of the stream, or `None` once the stream is
    /// exhausted; exhaustion is permanent.
    fn allocate_frame(&mut self) -> (r: Option<PhysFrame>)
        requires
            old(self).wf(),
        ensures
            final(self).wf(),
            old(self).frames().len() == 0 ==> r is None && final(self).frames() == old(
                self).frames(),
            old(self).frames().len() > 0 ==> r == Some(PhysFrame { base: old(self).frames()[0] })
                && final(self).frames() == old(self).frames().skip(1),
    ;
}

/// The null allocation source: always exhausted. Used where no real
/// allocation source exists yet.
pub struct EmptyFrameAllocator;

impl FrameAllocator for EmptyFrameAllocator {
    open spec fn frames(&self) -> Seq<u64> {
        Seq::empty()
    }

    open spec fn wf(&self) -> bool {
        true
    }

    fn allocate_frame(&mut self) -> (r: Option<PhysFrame>) {
        None
    }
}

/// The region-backed allocator: hands out the usable frames of the boot
/// memory map in address order, one per call, and never hands one out
/// twice.
pub struct BootInfoFrameAllocator {
    /// The boot memory descriptor's regions, in address order.
    pub regions: Vec<MemoryRegion>,
    /// Cursor: index of the region the next frame comes from.
    pub region_index: usize,
    /// Cursor: byte offset of the next frame within that region.
    pub offset: u64,
}

impl BootInfoFrameAllocator {
    /// Builds an allocator over a boot memory descriptor.
    ///
    /// The caller must guarantee that every `Usable` region is genuinely
    /// free: not occupied by the kernel image, bootloader structures or
    /// firmware-reserved memory.
    pub fn init(regions: Vec<MemoryRegion>) -> (r: BootInfoFrameAllocator)
        requires
            regions_wf(regions@),
        ensures
            r.wf(),
            r.regions == regions,
            r.frames() == usable_frames(regions@),
    {
        proof {
            if regions@.len() > 0 {
                assert(regions@[0].wf());
            }
        }
        BootInfoFrameAllocator { regions, region_index: 0, offset: 0 }
    }
}

impl FrameAllocator for BootInfoFrameAllocator {
    open spec fn frames(&self) -> Seq<u64> {
        frames_from(self.regions@, self.region_index as int, self.offset)
    }

    open spec fn wf(&self) -> bool {
        regions_wf(self.regions@) && cursor_wf(
            self.regions@,
            self.region_index as int,
            self.offset,
        )
    }

    /// Steps the cursor to the next usable frame, skipping spent and
    /// non-usable regions, and returns that frame.
    fn allocate_frame(&mut self) -> (r: Option<PhysFrame>) {
        loop
            invariant
                self.wf(),
                self.regions == old(self).regions,
                self.frames() == old(self).frames(),
            decreases self.regions@.len() - self.region_index,
        {
            if self.region_index >= self.regions.len() {
                return None;
            }
            let reg = self.regions[self.region_index];
            proof {
                assert(reg.wf());
            }
            let usable = matches!(reg.kind, RegionKind::Usable);
            if usable && self.offset < reg.end - reg.start {
                let f = reg.start + self.offset;
                let ghost fs0 = self.frames();
                let ghost d = reg.end - reg.start - self.offset;
                let ghost off0 = self.offset;
                self.offset = self.offset + 4096;
                proof {
                    assert(d >= 4096) by {
                        lemma_aligned_diff(reg.end as int, reg.start as int, off0 as int);
                    }
                    lemma_div_pos(d);
                    lemma_div_step(d);
                    assert(self.frames() =~= fs0.skip(1)) by {
                        assert forall|k: int| 0 <= k < self.frames().len() implies self.frames()[k]
                            == fs0.skip(1)[k] by {
                            let head0 = region_frames_from(reg, (self.offset - 4096) as u64);
                            let head1 = region_frames_from(reg, self.offset);
                            if k < head1.len() {
                                assert(head1[k] == head0[k + 1]);
                            }
                        }
                    }
                    assert(fs0[0] == f);
                }
                return Some(PhysFrame { base: f });
            } else {
                proof {
                    assert(region_frames_from(reg, self.offset) =~= Seq::<u64>::empty());
                    assert(self.frames() =~= frames_from(self.regions@, self.region_index + 1, 0));
                    if self.region_index + 1 < self.regions@.len() {
                        assert(self.regions@[self.region_index + 1].wf());
                    }
                }
                self.region_index = self.region_index + 1;
                self.offset = 0;
            }
        }
    }
}

/// For a fixed memory map, distinct allocation indices yield distinct
/// frames: the stream of usable frames never repeats an address.
pub proof fn lemma_frames_distinct(regions: Seq<MemoryRegion>, i: int, j: int)
    requires
        regions_wf(regions),
        0 <= i < usable_frames(regions).len(),
        0 <= j < usable_frames(regions).len(),
        i != j,
    ensures
        usable_frames(regions)[i] != usable_frames(regions)[j],
{
    if regions.len() > 0 {
        assert(regions[0].wf());
    }
    assert(cursor_wf(regions, 0, 0));
    lemma_frames_from_props(regions, 0, 0);
}

/// Exhaustion boundary: over a memory map with one usable region, the
/// allocator's stream holds exactly one frame per 4096 bytes of the
/// region, the `n`-th being `start + 4096 * n`; past the last it is spent.
pub proof fn lemma_single_region_frames(r: MemoryRegion, n: int)
    requires
        r.wf(),
        r.kind == RegionKind::Usable,
        0 <= n < (r.end - r.start) / 4096,
    ensures
        usable_frames(seq![r]).len() == (r.end - r.start) / 4096,
        usable_frames(seq![r])[n] == r.start + 4096 * n,
{
    let rs = seq![r];
    assert(rs[0] == r);
    assert(frames_from(rs, 1, 0) =~= Seq::<u64>::empty());
    assert(usable_frames(rs) =~= region_frames_from(r, 0));
    lemma_div_nonneg(r.end - r.start);
    lemma_idx_bound(n, r.end - r.start);
}

/// Every frame a well-formed allocator will produce is frame-aligned and
/// within the physical width, and no frame is produced twice.
pub proof fn lemma_allocator_frames_wf(a: BootInfoFrameAllocator)
    requires
        a.wf(),
    ensures
        forall|k: int|
            0 <= k < a.frames().len() ==> page_aligned(#[trigger] a.frames()[k]) && phys_bounded(
                a.frames()[k]),
        a.frames().no_duplicates(),
{
    lemma_frames_from_props(a.regions@, a.region_index as int, a.offset);
}

} // verus!
