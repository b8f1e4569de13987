//! Boot memory map interpretation and the bump frame allocator.
//!
//! The boot environment delivers an ordered list of physical memory
//! regions.  This module computes the total installed memory over that
//! list and turns its `Usable` regions into an ordered sequence of
//! 4 KiB-aligned physical frames, handed out one at a time by a
//! cursor-only allocator.

use vstd::prelude::*;

verus! {

/// Usability classification of a physical memory region, as reported by
/// the firmware memory map.
#[derive(Clone, Copy, Debug, PartialEq, Eq, Structural)]
pub enum RegionKind {
    /// Safe for general kernel use.
    Usable,
    /// Owned by firmware or hardware; never allocated from.
    Reserved,
    /// Any other firmware-defined classification.
    Other,
}

/// A contiguous physical address range `[start, end)` with its
/// usability classification.
#[derive(Clone, Copy, Debug, PartialEq, Eq, Structural)]
pub struct MemoryRegion {
    pub start: u64,
    pub end: u64,
    pub kind: RegionKind,
}

/// A single region is well formed when its range is not inverted.
pub open spec fn region_wf(r: MemoryRegion) -> bool {
    r.start <= r.end
}

/// Every region of the list is well formed.
pub open spec fn regions_wf(rs: Seq<MemoryRegion>) -> bool {
    forall|i: int| 0 <= i < rs.len() ==> region_wf(#[trigger] rs[i])
}

/// Sum of `end - start` over all regions, usable or not.
pub open spec fn total_bytes(rs: Seq<MemoryRegion>) -> int
    decreases rs.len(),
{
    if rs.len() == 0 {
        0
    } else {
        total_bytes(rs.drop_last()) + (rs.last().end - rs.last().start)
    }
}

/// Under `regions_wf`, the byte total of a prefix never exceeds the
/// byte total of the whole list.
proof fn lemma_total_bytes_prefix_le(rs: Seq<MemoryRegion>, i: int)
    requires
        regions_wf(rs),
        0 <= i <= rs.len(),
    ensures
        total_bytes(rs.take(i)) <= total_bytes(rs),
    decreases rs.len() - i,
{
    if i < rs.len() {
        assert(rs.take(i + 1).drop_last() =~= rs.take(i));
        assert(rs.take(i + 1).last() == rs[i]);
        lemma_total_bytes_prefix_le(rs, i + 1);
    } else {
        assert(rs.take(i) =~= rs);
    }
}

/// Total installed memory: the sum of `end - start` over all regions of
/// the boot memory map, regardless of usability.
pub fn total_memory(regions: &Vec<MemoryRegion>) -> (total: u64)
    requires
        regions_wf(regions@),
        total_bytes(regions@) <= u64::MAX,
    ensures
        total == total_bytes(regions@),
{
    let mut total: u64 = 0;
    let mut i: usize = 0;
    while i < regions.len()
        invariant
            regions_wf(regions@),
            total_bytes(regions@) <= u64::MAX,
            0 <= i <= regions.len(),
            total == total_bytes(regions@.take(i as int)),
        decreases regions.len() - i,
    {
        let r = regions[i];
        proof {
            assert(regions@.take(i + 1).drop_last() =~= regions@.take(i as int));
            assert(regions@.take(i + 1).last() == regions@[i as int]);
            lemma_total_bytes_prefix_le(regions@, i + 1);
        }
        total = total + (r.end - r.start);
        i = i + 1;
    }
    proof {
        assert(regions@.take(regions@.len() as int) =~= regions@);
    }
    total
}

/// A 4 KiB physical memory frame, identified by its aligned starting
/// physical address.
#[derive(Clone, Copy, Debug, PartialEq, Eq, Structural)]
pub struct Frame {
    pub start: u64,
}

/// Number of whole 4 KiB frames that fit in the region's range.  A
/// trailing partial frame is never counted.
pub open spec fn frame_count(r: MemoryRegion) -> int {
    if r.start <= r.end {
        (r.end - r.start) / 4096
    } else {
        0
    }
}

/// The frame start addresses a single region contributes: successive
/// 4 KiB steps from `start` for a `Usable` region, nothing otherwise.
pub open spec fn region_frames(r: MemoryRegion) -> Seq<int> {
    if r.kind is Usable {
        Seq::new(frame_count(r) as nat, |k: int| r.start + 4096 * k)
    } else {
        Seq::empty()
    }
}

/// The full allocation order: frames of each region in memory-map
/// order, concatenated.
pub open spec fn frame_seq(rs: Seq<MemoryRegion>) -> Seq<int>
    decreases rs.len(),
{
    if rs.len() == 0 {
        Seq::empty()
    } else {
        region_frames(rs[0]) + frame_seq(rs.drop_first())
    }
}

/// What the `n`-th allocation from a fresh allocator over `rs` yields:
/// the `n`-th frame address of the allocation order, or nothing once
/// the order is exhausted.
pub open spec fn nth_frame(rs: Seq<MemoryRegion>, n: int) -> Option<int> {
    if 0 <= n < frame_seq(rs).len() {
        Some(frame_seq(rs)[n])
    } else {
        None
    }
}

/// A trustworthy boot memory map: ranges not inverted, usable regions
/// 4 KiB-aligned at their start and pairwise disjoint.
pub open spec fn map_wf(rs: Seq<MemoryRegion>) -> bool {
    &&& regions_wf(rs)
    &&& forall|i: int|
        0 <= i < rs.len() && (#[trigger] rs[i]).kind is Usable ==> rs[i].start % 4096 == 0
    &&& forall|i: int, j: int|
        0 <= i < rs.len() && 0 <= j < rs.len() && i != j && (#[trigger] rs[i]).kind is Usable && (
        #[trigger] rs[j]).kind is Usable ==> rs[i].end <= rs[j].start || rs[j].end <= rs[i].start
}

/// The address lies inside some `Usable` region of the map.
pub open spec fn in_usable_region(rs: Seq<MemoryRegion>, addr: int) -> bool {
    exists|i: int|
        0 <= i < rs.len() && (#[trigger] rs[i]).kind is Usable && rs[i].start <= addr
            < rs[i].end
}

proof fn lemma_frame_seq_push(rs: Seq<MemoryRegion>, r: MemoryRegion)
    ensures
        frame_seq(rs.push(r)) == frame_seq(rs) + region_frames(r),
    decreases rs.len(),
{
    if rs.len() == 0 {
        assert(rs.push(r)[0] == r);
        assert(rs.push(r).drop_first() =~= Seq::<MemoryRegion>::empty());
        assert(frame_seq(Seq::<MemoryRegion>::empty()) == Seq::<int>::empty());
        assert(frame_seq(rs) == Seq::<int>::empty());
        assert(frame_seq(rs.push(r)) == region_frames(r) + Seq::<int>::empty());
        assert(frame_seq(rs.push(r)) =~= frame_seq(rs) + region_frames(r));
    } else {
        assert(rs.push(r)[0] == rs[0]);
        assert(rs.push(r).drop_first() =~= rs.drop_first().push(r));
        lemma_frame_seq_push(rs.drop_first(), r);
        assert(frame_seq(rs.push(r)) =~= frame_seq(rs) + region_frames(r));
    }
}

proof fn lemma_frame_seq_split(rs: Seq<MemoryRegion>, i: int)
    requires
        0 <= i <= rs.len(),
    ensures
        frame_seq(rs) == frame_seq(rs.take(i)) + frame_seq(rs.skip(i)),
    decreases i,
{
    if i == 0 {
        assert(rs.skip(0) =~= rs);
        assert(frame_seq(rs) =~= frame_seq(rs.take(0)) + frame_seq(rs.skip(0)));
    } else {
        assert(rs.take(i).drop_first() =~= rs.drop_first().take(i - 1));
        assert(rs.skip(i) =~= rs.drop_first().skip(i - 1));
        lemma_frame_seq_split(rs.drop_first(), i - 1);
        assert(frame_seq(rs.take(i)) == region_frames(rs[0]) + frame_seq(
            rs.drop_first().take(i - 1),
        ));
        assert(frame_seq(rs) =~= frame_seq(rs.take(i)) + frame_seq(rs.skip(i)));
    }
}

/// Every frame of a well-formed region stays a whole 4 KiB inside it.
proof fn lemma_region_frame_bounds(r: MemoryRegion)
    requires
        region_wf(r),
    ensures
        forall|k: int|
            0 <= k < region_frames(r).len() ==> r.start <= #[trigger] region_frames(r)[k]
                && region_frames(r)[k] + 4096 <= r.end,
{
    if r.kind is Usable {
        vstd::arithmetic::div_mod::lemma_fundamental_div_mod((r.end - r.start) as int, 4096);
        vstd::arithmetic::div_mod::lemma_mod_bound((r.end - r.start) as int, 4096);
        assert forall|k: int| 0 <= k < region_frames(r).len() implies r.start
            <= #[trigger] region_frames(r)[k] && region_frames(r)[k] + 4096 <= r.end by {
            assert(region_frames(r)[k] == r.start + 4096 * k);
            assert(4096 * (k + 1) <= 4096 * frame_count(r));
        }
    }
}

/// Soundness of the allocation order: over a trustworthy memory map,
/// every frame address it holds is 4 KiB-aligned and lies inside some
/// `Usable` region, and no address occurs twice.
pub proof fn lemma_frame_seq_sound(rs: Seq<MemoryRegion>)
    requires
        map_wf(rs),
    ensures
        forall|k: int| 0 <= k < frame_seq(rs).len() ==> #[trigger] frame_seq(rs)[k] % 4096 == 0,
        forall|k: int|
            0 <= k < frame_seq(rs).len() ==> in_usable_region(rs, #[trigger] frame_seq(rs)[k]),
        forall|k: int, l: int|
            0 <= k < l < frame_seq(rs).len() ==> frame_seq(rs)[k] != frame_seq(rs)[l],
    decreases rs.len(),
{
    if rs.len() > 0 {
        let head = rs[0];
        let tail = rs.drop_first();
        assert forall|i: int| 0 <= i < tail.len() implies region_wf(#[trigger] tail[i]) by {
            assert(tail[i] == rs[i + 1]);
        }
        assert forall|i: int|
            0 <= i < tail.len() && (#[trigger] tail[i]).kind is Usable implies tail[i].start % 4096
            == 0 by {
            assert(tail[i] == rs[i + 1]);
        }
        assert forall|i: int, j: int|
            0 <= i < tail.len() && 0 <= j < tail.len() && i != j && (
            #[trigger] tail[i]).kind is Usable && (#[trigger] tail[j]).kind is Usable implies
            tail[i].end <= tail[j].start || tail[j].end <= tail[i].start by {
            assert(tail[i] == rs[i + 1]);
            assert(tail[j] == rs[j + 1]);
        }
        lemma_frame_seq_sound(tail);
        lemma_region_frame_bounds(head);
        let hs = region_frames(head);
        let ts = frame_seq(tail);
        assert(frame_seq(rs) == hs + ts);
        assert forall|k: int| 0 <= k < hs.len() implies hs[k] % 4096 == 0 && head.start <= hs[k]
            < head.end && head.kind is Usable by {
            assert(hs[k] == head.start + 4096 * k);
            vstd::arithmetic::div_mod::lemma_mod_multiples_vanish(k, head.start as int, 4096);
        }
        assert forall|k: int| 0 <= k < frame_seq(rs).len() implies in_usable_region(
            rs,
            #[trigger] frame_seq(rs)[k],
        ) by {
            if k < hs.len() {
                assert(rs[0].kind is Usable && rs[0].start <= frame_seq(rs)[k] < rs[0].end);
            } else {
                assert(in_usable_region(tail, ts[k - hs.len()]));
                let j = choose|j: int|
                    0 <= j < tail.len() && (#[trigger] tail[j]).kind is Usable && tail[j].start
                        <= ts[k - hs.len()] < tail[j].end;
                assert(rs[j + 1] == tail[j]);
                assert(rs[j + 1].kind is Usable && rs[j + 1].start <= frame_seq(rs)[k] < rs[j
                    + 1].end);
            }
        }
        assert forall|k: int, l: int| 0 <= k < l < frame_seq(rs).len() implies frame_seq(rs)[k]
            != frame_seq(rs)[l] by {
            if k < hs.len() && l >= hs.len() {
                assert(in_usable_region(tail, ts[l - hs.len()]));
                let j = choose|j: int|
                    0 <= j < tail.len() && (#[trigger] tail[j]).kind is Usable && tail[j].start
                        <= ts[l - hs.len()] < tail[j].end;
                assert(rs[j + 1] == tail[j]);
                assert(rs[0].end <= rs[j + 1].start || rs[j + 1].end <= rs[0].start);
            }
        }
    }
}

/// Replay equivalence: taking one frame at a time `n` times from a
/// fresh allocator yields exactly the first `n` frames of the
/// allocation order.
pub proof fn lemma_replay_equals_prefix(rs: Seq<MemoryRegion>, n: int)
    requires
        0 <= n <= frame_seq(rs).len(),
    ensures
        Seq::new(n as nat, |i: int| nth_frame(rs, i)) =~= frame_seq(rs).take(n).map_values(
            |a: int| Some(a),
        ),
{
}

/// Exhaustion is permanent: once the cursor has reached the end of the
/// allocation order, every later call yields nothing.
pub proof fn lemma_exhaustion_permanent(rs: Seq<MemoryRegion>, n: int, m: int)
    requires
        frame_seq(rs).len() <= n <= m,
    ensures
        nth_frame(rs, m) is None,
{
}

/// Bump allocator over the usable frames of the boot memory map.  A
/// single cursor walks the allocation order; it advances on every call,
/// found frame or not, and never goes back.
pub struct BootInfoFrameAllocator {
    memory_map: Vec<MemoryRegion>,
    next: usize,
}

impl BootInfoFrameAllocator {
    /// The memory map the allocator draws from.
    pub closed spec fn regions(&self) -> Seq<MemoryRegion> {
        self.memory_map@
    }

    /// Position in the allocation order: the number of calls made so far.
    pub closed spec fn cursor(&self) -> int {
        self.next as int
    }

    pub closed spec fn wf(&self) -> bool {
        map_wf(self.memory_map@)
    }

    /// Builds an allocator over a trustworthy boot memory map, with the
    /// cursor at the first frame.
    pub fn init(memory_map: Vec<MemoryRegion>) -> (alloc: Self)
        requires
            map_wf(memory_map@),
        ensures
            alloc.wf(),
            alloc.regions() == memory_map@,
            alloc.cursor() == 0,
    {
        BootInfoFrameAllocator { memory_map, next: 0 }
    }

    /// Returns the frame at the current cursor position of the
    /// allocation order, or nothing once the order is exhausted.  The
    /// cursor advances either way.
    #[verifier::loop_isolation(false)]
    pub fn allocate_frame(&mut self) -> (frame: Option<Frame>)
        requires
            old(self).wf(),
            old(self).cursor() < usize::MAX as int,
        ensures
            final(self).wf(),
            final(self).regions() == old(self).regions(),
            final(self).cursor() == old(self).cursor() + 1,
            match frame {
                Some(f) => nth_frame(old(self).regions(), old(self).cursor()) == Some(
                    f.start as int,
                ),
                None => nth_frame(old(self).regions(), old(self).cursor()) is None,
            },
    {
        let ghost rs = self.memory_map@;
        let n = self.next;
        self.next = self.next + 1;
        let mut rem: u64 = n as u64;
        let mut i: usize = 0;
        while i < self.memory_map.len()
            invariant
                map_wf(rs),
                self.memory_map@ == rs,
                self.next == n + 1,
                0 <= i <= rs.len(),
                frame_seq(rs.take(i as int)).len() <= n,
                rem as int == n - frame_seq(rs.take(i as int)).len(),
            decreases rs.len() - i,
        {
            let r = self.memory_map[i];
            proof {
                assert(rs.take(i + 1) =~= rs.take(i as int).push(rs[i as int]));
                lemma_frame_seq_push(rs.take(i as int), rs[i as int]);
            }
            if r.kind == RegionKind::Usable {
                let count: u64 = (r.end - r.start) / 4096;
                proof {
                    vstd::arithmetic::div_mod::lemma_fundamental_div_mod(
                        (r.end - r.start) as int,
                        4096,
                    );
                    vstd::arithmetic::div_mod::lemma_mod_bound((r.end - r.start) as int, 4096);
                    assert(region_frames(rs[i as int]).len() == count);
                }
                if rem < count {
                    proof {
                        lemma_frame_seq_split(rs, i as int);
                        assert(rs.skip(i as int)[0] == rs[i as int]);
                        assert(frame_seq(rs.skip(i as int)) == region_frames(rs[i as int])
                            + frame_seq(rs.skip(i as int).drop_first()));
                        assert(4096 * (rem + 1) <= 4096 * (count as int));
                        assert(frame_seq(rs)[n as int] == r.start + 4096 * rem);
                    }
                    return Some(Frame { start: r.start + rem * 4096 });
                }
                rem = rem - count;
            }
            i = i + 1;
        }
        proof {
            assert(rs.take(rs.len() as int) =~= rs);
        }
        None
    }

    /// The whole allocation order at once: every frame the allocator
    /// will ever hand out, in allocation order.
    #[verifier::loop_isolation(false)]
    pub fn usable_frames(&self) -> (frames: Vec<Frame>)
        requires
            self.wf(),
        ensures
            frames@.len() == frame_seq(self.regions()).len(),
            forall|k: int|
                0 <= k < frames@.len() ==> (#[trigger] frames@[k]).start as int == frame_seq(
                    self.regions(),
                )[k],
    {
        let ghost rs = self.memory_map@;
        let mut frames: Vec<Frame> = Vec::new();
        let mut i: usize = 0;
        while i < self.memory_map.len()
            invariant
                0 <= i <= rs.len(),
                frames@.len() == frame_seq(rs.take(i as int)).len(),
                forall|k: int|
                    0 <= k < frames@.len() ==> (#[trigger] frames@[k]).start as int == frame_seq(
                        rs.take(i as int),
                    )[k],
            decreases rs.len() - i,
        {
            let r = self.memory_map[i];
            proof {
                assert(rs.take(i + 1) =~= rs.take(i as int).push(rs[i as int]));
                lemma_frame_seq_push(rs.take(i as int), rs[i as int]);
            }
            if r.kind == RegionKind::Usable {
                let count: u64 = (r.end - r.start) / 4096;
                proof {
                    vstd::arithmetic::div_mod::lemma_fundamental_div_mod(
                        (r.end - r.start) as int,
                        4096,
                    );
                    vstd::arithmetic::div_mod::lemma_mod_bound((r.end - r.start) as int, 4096);
                    assert(region_frames(rs[i as int]).len() == count);
                }
                let ghost base = frame_seq(rs.take(i as int)).len() as int;
                let mut k: u64 = 0;
                while k < count
                    invariant
                        0 <= k <= count,
                        frames@.len() == base + k,
                        forall|t: int|
                            0 <= t < base ==> (#[trigger] frames@[t]).start as int == frame_seq(
                                rs.take(i as int),
                            )[t],
                        forall|t: int|
                            0 <= t < k ==> (#[trigger] frames@[base + t]).start as int == r.start
                                + 4096 * t,
                    decreases count - k,
                {
                    proof {
                        assert(4096 * (k + 1) <= 4096 * (count as int));
                    }
                    frames.push(Frame { start: r.start + k * 4096 });
                    k = k + 1;
                }
                proof {
                    assert forall|k2: int| 0 <= k2 < frames@.len() implies (
                    #[trigger] frames@[k2]).start as int == frame_seq(rs.take(i + 1))[k2] by {
                        if base <= k2 {
                            assert(frames@[base + (k2 - base)].start as int == r.start + 4096 * (k2
                                - base));
                            assert(frame_seq(rs.take(i + 1))[k2] == region_frames(rs[i as int])[k2
                                - base]);
                        }
                    }
                }
            }
            i = i + 1;
        }
        proof {
            assert(rs.take(rs.len() as int) =~= rs);
        }
        frames
    }
}

} // verus!
