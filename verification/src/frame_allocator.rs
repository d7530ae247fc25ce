//! Physical frame allocator: a fixed table of usable frame ranges,
//! served in order.  The boot-time memory map arrives as plain values;
//! reading it out of the boot information structure is left to the
//! surrounding kernel glue.

use vstd::prelude::*;

verus! {

/// One region of the boot-time memory map, as plain values: its byte
/// bounds and whether the kernel may use it.
#[derive(Clone, Copy, PartialEq, Eq, Structural, Debug)]
pub struct MemRegion {
    pub start_addr: u64,
    pub end_addr: u64,
    pub usable: bool,
}

/// A half-open range of physical frames, in units of 4 KiB frames.
#[derive(Clone, Copy, PartialEq, Eq, Structural, Debug)]
pub struct FrameRange(pub u64, pub u64);

/// The usable regions of a memory map, in order.
pub open spec fn usable_of(rs: Seq<MemRegion>) -> Seq<MemRegion>
    decreases rs.len(),
{
    if rs.len() == 0 {
        Seq::empty()
    } else {
        usable_of(rs.drop_last()) + (if rs.last().usable {
            seq![rs.last()]
        } else {
            Seq::empty()
        })
    }
}

/// First range index that still holds a frame, or 16 when all are spent.
pub open spec fn first_avail(ranges: Seq<FrameRange>, k: int) -> int
    decreases 16 - k,
{
    if k >= 16 {
        16
    } else if ranges[k].0 < ranges[k].1 {
        k
    } else {
        first_avail(ranges, k + 1)
    }
}

/// Physical frame allocator over a fixed table of frame ranges.
pub struct FrameAllocator {
    pub ranges: Vec<FrameRange>,
}

impl FrameAllocator {
    /// Sixteen range slots, all empty.
    pub open spec fn wf(self) -> bool {
        self.ranges.len() == 16
    }

    /// An allocator with all range slots empty.
    pub fn new() -> (r: FrameAllocator)
        ensures
            r.wf(),
            forall|k: int| 0 <= k < 16 ==> #[trigger] r.ranges@[k] == FrameRange(0, 0),
    {
        let mut ranges: Vec<FrameRange> = Vec::new();
        let mut i: usize = 0;
        while i < 16
            invariant
                ranges.len() == i,
                i <= 16,
                forall|k: int| 0 <= k < i ==> #[trigger] ranges@[k] == FrameRange(0, 0),
            decreases 16 - i,
        {
            ranges.push(FrameRange(0, 0));
            i = i + 1;
        }
        FrameAllocator { ranges }
    }

    /// Fills the range table from the boot-time memory map: the usable
    /// regions, in order, converted from byte bounds to frame numbers;
    /// at most sixteen are kept.
    pub fn init(&mut self, regions: &Vec<MemRegion>)
        requires
            old(self).wf(),
        ensures
            final(self).wf(),
            ({
                let us = usable_of(regions@);
                let n = if us.len() < 16 { us.len() as int } else { 16int };
                &&& (forall|k: int| 0 <= k < n ==> #[trigger] final(self).ranges@[k]
                        == FrameRange(us[k].start_addr >> 12, us[k].end_addr >> 12))
                &&& (forall|k: int| n <= k < 16 ==> #[trigger] final(self).ranges@[k]
                        == old(self).ranges@[k])
            }),
    {
        let ghost us = usable_of(regions@);
        let mut slot: usize = 0;
        let mut i: usize = 0;
        while i < regions.len()
            invariant
                self.wf(),
                i <= regions.len(),
                slot <= 16,
                slot <= usable_of(regions@.take(i as int)).len(),
                usable_of(regions@.take(i as int)).len() < 16
                    ==> slot == usable_of(regions@.take(i as int)).len(),
                slot == 16 || slot == usable_of(regions@.take(i as int)).len(),
                forall|k: int| 0 <= k < slot ==> #[trigger] self.ranges@[k]
                    == FrameRange(
                        usable_of(regions@.take(i as int))[k].start_addr >> 12,
                        usable_of(regions@.take(i as int))[k].end_addr >> 12,
                    ),
                forall|k: int| slot <= k < 16 ==> #[trigger] self.ranges@[k]
                    == old(self).ranges@[k],
            decreases regions.len() - i,
        {
            proof {
                lemma_usable_take_step(regions@, i as int);
            }
            let region = regions[i];
            if region.usable && slot < 16 {
                self.ranges[slot] = FrameRange(region.start_addr >> 12, region.end_addr >> 12);
                slot = slot + 1;
            }
            i = i + 1;
        }
        proof {
            assert(regions@.take(regions@.len() as int) =~= regions@);
        }
    }

    /// Hands out the lowest frame of the first range that still has one,
    /// as a byte address; nothing when every range is spent.
    pub fn allocate_frame(&mut self) -> (r: Option<u64>)
        requires
            old(self).wf(),
        ensures
            final(self).wf(),
            r.is_some() <==> first_avail(old(self).ranges@, 0) < 16,
            r.is_none() ==> final(self).ranges@ == old(self).ranges@,
            r.is_some() ==> ({
                let k = first_avail(old(self).ranges@, 0);
                &&& r.unwrap() == old(self).ranges@[k].0 << 12
                &&& final(self).ranges@ == old(self).ranges@.update(
                    k,
                    FrameRange((old(self).ranges@[k].0 + 1) as u64, old(self).ranges@[k].1),
                )
            }),
    {
        let mut k: usize = 0;
        while k < 16
            invariant
                self.wf(),
                *self == *old(self),
                k <= 16,
                first_avail(old(self).ranges@, 0) == first_avail(old(self).ranges@, k as int),
            decreases 16 - k,
        {
            let range = self.ranges[k];
            if range.0 < range.1 {
                let address: u64 = range.0 << 12;
                self.ranges[k] = FrameRange(range.0 + 1, range.1);
                return Some(address);
            }
            k = k + 1;
        }
        None
    }
}

/// Unfolds one step of the usable-region filter over a growing prefix.
proof fn lemma_usable_take_step(rs: Seq<MemRegion>, i: int)
    requires
        0 <= i < rs.len(),
    ensures
        usable_of(rs.take(i + 1)) == usable_of(rs.take(i)) + (if rs[i].usable {
            seq![rs[i]]
        } else {
            Seq::<MemRegion>::empty()
        }),
{
    let t = rs.take(i + 1);
    assert(t.drop_last() =~= rs.take(i));
    assert(t.last() == rs[i]);
    if rs[i].usable {
    } else {
        assert(usable_of(t) =~= usable_of(rs.take(i)) + Seq::<MemRegion>::empty());
    }
}

} // verus!
