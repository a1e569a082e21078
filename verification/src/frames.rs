//! The allocator of physical memory frames. The usable regions of memory
//! are cut into 4 KiB frames, in order; the allocator takes them in
//! batches, keeps the free frames as a stack and hands out the one freed
//! last. Writing to the frames themselves (linking and zeroing them) is
//! left to the caller, which knows where physical memory is mapped.
use vstd::prelude::*;

verus! {

/// The size of a frame.
pub const FRAME_SIZE: u64 = 4096;

/// How many frames a batch takes at most.
pub const BATCH_FRAMES: usize = 20000;

/// `addr` rounded down to a multiple of `align`, by `x86_64::align_down`:
/// the greatest multiple of the power of two `align` not above `addr`.
#[verifier::external_body]
fn align_down(addr: u64, align: u64) -> (r: u64)
    requires
        align > 0,
        align & ((align - 1) as u64) == 0,
    ensures
        r == addr - addr % align,
{
    x86_64::align_down(addr, align)
}

/// `addr` rounded up to a multiple of `align`, by `x86_64::align_up`: the
/// least multiple of the power of two `align` not below `addr`; the call
/// panics when that is past `u64::MAX`, which `requires` leaves out.
#[verifier::external_body]
fn align_up(addr: u64, align: u64) -> (r: u64)
    requires
        align > 0,
        align & ((align - 1) as u64) == 0,
        addr % align == 0 || addr - addr % align + align <= u64::MAX,
    ensures
        r == (if addr % align == 0 {
            addr as int
        } else {
            addr - addr % align + align
        }),
{
    x86_64::align_up(addr, align)
}

/// The least multiple of the frame size not below `a`.
pub open spec fn frame_up(a: int) -> int {
    if a % 4096 == 0 {
        a
    } else {
        a - a % 4096 + 4096
    }
}

/// The greatest multiple of the frame size not above `a`.
pub open spec fn frame_down(a: int) -> int {
    a - a % 4096
}

/// The frames wholly inside the region of `r.1` bytes from `r.0`, in order.
pub open spec fn region_frames(r: (u64, u64)) -> Seq<u64> {
    let lo = frame_up(r.0 as int);
    let hi = frame_down(r.0 + r.1);
    if lo < hi {
        Seq::new(((hi - lo) / 4096) as nat, |i: int| (lo + 4096 * i) as u64)
    } else {
        Seq::empty()
    }
}

/// The frames of all the regions, region after region.
pub open spec fn usable_frames(regions: Seq<(u64, u64)>) -> Seq<u64>
    decreases regions.len(),
{
    if regions.len() == 0 {
        Seq::empty()
    } else {
        usable_frames(regions.drop_last()) + region_frames(regions.last())
    }
}

/// A region ends within the address space, and so does its first frame.
pub open spec fn region_ok(r: (u64, u64)) -> bool {
    r.0 + r.1 <= u64::MAX && frame_up(r.0 as int) <= u64::MAX
}

/// Each region is sound.
pub open spec fn regions_ok(regions: Seq<(u64, u64)>) -> bool {
    forall|i: int| 0 <= i < regions.len() ==> region_ok(#[trigger] regions[i])
}

/// Whether `f` is a frame that lies wholly inside one of the regions.
pub open spec fn usable(regions: Seq<(u64, u64)>, f: u64) -> bool {
    &&& f % 4096 == 0
    &&& exists|i: int|
        0 <= i < regions.len() && regions[i].0 <= f && f + 4096 <= regions[i].0 + regions[i].1
}

/// The allocator as plain values: the regions, the free frames (the last
/// is handed out first) and how many frames of the regions were taken.
pub struct AllocView {
    pub regions: Seq<(u64, u64)>,
    pub free: Seq<u64>,
    pub batch_end: nat,
}

/// The next batch: up to `BATCH_FRAMES` frames after those taken.
pub open spec fn next_batch(v: AllocView) -> Seq<u64> {
    let all = usable_frames(v.regions);
    let n = if all.len() - v.batch_end < BATCH_FRAMES {
        all.len() - v.batch_end
    } else {
        BATCH_FRAMES as int
    };
    all.subrange(v.batch_end as int, v.batch_end + n)
}

/// Taking the next batch: its frames are freed in order.
pub open spec fn add_batch_spec(v: AllocView) -> AllocView {
    AllocView {
        regions: v.regions,
        free: v.free + next_batch(v),
        batch_end: v.batch_end + next_batch(v).len(),
    }
}

/// Handing out a frame: when none is free a batch is taken first; the
/// frame freed last goes, if there is one.
pub open spec fn allocate_spec(v: AllocView) -> (AllocView, Option<u64>) {
    let w = if v.free.len() == 0 {
        add_batch_spec(v)
    } else {
        v
    };
    if w.free.len() == 0 {
        (w, None)
    } else {
        (AllocView { regions: w.regions, free: w.free.drop_last(), batch_end: w.batch_end }, Some(w.free.last()))
    }
}

/// Freeing frame `f`.
pub open spec fn deallocate_spec(v: AllocView, f: u64) -> AllocView {
    AllocView { regions: v.regions, free: v.free.push(f), batch_end: v.batch_end }
}

/// The frames of the first regions come first among all.
proof fn lemma_usable_prefix(regions: Seq<(u64, u64)>, k: int)
    requires
        0 <= k <= regions.len(),
    ensures
        usable_frames(regions.take(k)).len() <= usable_frames(regions).len(),
        forall|x: int|
            0 <= x < usable_frames(regions.take(k)).len() ==> #[trigger] usable_frames(regions)[x]
                == usable_frames(regions.take(k))[x],
    decreases regions.len() - k,
{
    if k == regions.len() {
        assert(regions.take(k) =~= regions);
    } else {
        lemma_usable_prefix(regions, k + 1);
        assert(regions.take(k + 1).drop_last() =~= regions.take(k));
    }
}

/// The frames of a region lie in it, aligned.
proof fn lemma_region_frames(r: (u64, u64))
    requires
        region_ok(r),
    ensures
        forall|j: int|
            0 <= j < region_frames(r).len() ==> {
                &&& #[trigger] region_frames(r)[j] % 4096 == 0
                &&& r.0 <= region_frames(r)[j]
                &&& region_frames(r)[j] + 4096 <= r.0 + r.1
            },
{
    let lo = frame_up(r.0 as int);
    let hi = frame_down(r.0 + r.1);
    if lo < hi {
        assert forall|j: int| 0 <= j < region_frames(r).len() implies {
            &&& #[trigger] region_frames(r)[j] % 4096 == 0
            &&& r.0 <= region_frames(r)[j]
            &&& region_frames(r)[j] + 4096 <= r.0 + r.1
        } by {
            assert((hi - lo) % 4096 == 0);
            assert(j * 4096 + 4096 <= hi - lo) by (nonlinear_arith)
                requires
                    0 <= j < (hi - lo) / 4096,
                    (hi - lo) % 4096 == 0,
            ;
            assert((lo + 4096 * j) % 4096 == 0) by (nonlinear_arith)
                requires
                    lo % 4096 == 0,
            ;
        }
    }
}

/// Every frame cut from the regions lies wholly inside one of them.
pub proof fn law_usable_frames_lie_in_regions(regions: Seq<(u64, u64)>)
    requires
        regions_ok(regions),
    ensures
        forall|x: int| 0 <= x < usable_frames(regions).len() ==> usable(regions, #[trigger] usable_frames(regions)[x]),
    decreases regions.len(),
{
    if regions.len() > 0 {
        let init = regions.drop_last();
        let last = regions.last();
        assert(regions_ok(init)) by {
            assert forall|i: int| 0 <= i < init.len() implies region_ok(#[trigger] init[i]) by {
                assert(init[i] == regions[i]);
            }
        }
        law_usable_frames_lie_in_regions(init);
        assert(regions[regions.len() - 1] == last);
        lemma_region_frames(last);
        let a = usable_frames(init);
        let all = usable_frames(regions);
        assert forall|x: int| 0 <= x < all.len() implies usable(regions, #[trigger] all[x]) by {
            if x < a.len() {
                assert(all[x] == a[x]);
                let i = choose|i: int|
                    0 <= i < init.len() && init[i].0 <= a[x] && a[x] + 4096 <= init[i].0 + init[i].1;
                assert(regions[i] == init[i]);
            } else {
                assert(all[x] == region_frames(last)[x - a.len()]);
                assert(regions[regions.len() - 1].0 <= all[x]);
            }
        }
    }
}

/// The allocator of physical frames.
pub struct LinkedListFrameAllocator {
    regions: Vec<(u64, u64)>,
    free: Vec<u64>,
    current_batch_end: usize,
}

impl View for LinkedListFrameAllocator {
    type V = AllocView;

    closed spec fn view(&self) -> AllocView {
        AllocView { regions: self.regions@, free: self.free@, batch_end: self.current_batch_end as nat }
    }
}

impl LinkedListFrameAllocator {
    /// The regions are sound, no more frames were taken than they hold,
    /// and their frames can be counted.
    pub open spec fn wf(&self) -> bool {
        &&& regions_ok(self@.regions)
        &&& self@.batch_end <= usable_frames(self@.regions).len()
        &&& usable_frames(self@.regions).len() <= usize::MAX
    }

    /// An allocator over the usable `regions`, given as start and length,
    /// with its first batch taken.
    pub fn new(regions: Vec<(u64, u64)>) -> (r: Self)
        requires
            regions_ok(regions@),
            usable_frames(regions@).len() <= usize::MAX,
        ensures
            r.wf(),
            r@ == add_batch_spec(AllocView { regions: regions@, free: Seq::empty(), batch_end: 0 }),
    {
        let mut alloc = LinkedListFrameAllocator { regions, free: Vec::new(), current_batch_end: 0 };
        proof {
            assert(alloc@.free =~= Seq::<u64>::empty());
        }
        alloc.add_batch();
        alloc
    }

    /// Takes the next batch of frames from the regions.
    fn add_batch(&mut self)
        requires
            old(self).wf(),
        ensures
            final(self).wf(),
            final(self)@ == add_batch_spec(old(self)@),
    {
        let ghost v = self@;
        let ghost all = usable_frames(v.regions);
        let ghost b = v.batch_end as int;
        let ghost f0 = v.free;
        let mut seen: usize = 0;
        let mut taken: usize = 0;
        let mut i: usize = 0;
        proof {
            assert(v.regions.take(0) =~= Seq::<(u64, u64)>::empty());
            assert(all.subrange(b, b) =~= Seq::<u64>::empty());
            assert(self.free@ =~= f0 + all.subrange(b, b));
        }
        while i < self.regions.len() && taken < BATCH_FRAMES
            invariant
                self.regions@ == v.regions,
                self.current_batch_end == v.batch_end,
                b == v.batch_end,
                regions_ok(v.regions),
                all == usable_frames(v.regions),
                b <= all.len() <= usize::MAX,
                i <= v.regions.len(),
                seen == usable_frames(v.regions.take(i as int)).len() || taken == BATCH_FRAMES,
                seen <= all.len(),
                taken <= BATCH_FRAMES,
                (seen <= b && taken == 0) || (seen == b + taken),
                self.free@ == f0 + all.subrange(b, b + taken),
            decreases v.regions.len() - i, BATCH_FRAMES - taken,
        {
            let (start, length) = self.regions[i];
            proof {
                assert(v.regions[i as int] == (start, length));
                assert(region_ok(v.regions[i as int]));
                assert(4096u64 & 4095u64 == 0) by (bit_vector);
                lemma_usable_prefix(v.regions, i + 1);
                assert(v.regions.take(i + 1).drop_last() =~= v.regions.take(i as int));
                assert(v.regions.take(i + 1).last() == (start, length));
            }
            let lo = align_up(start, FRAME_SIZE);
            let hi = align_down(start + length, FRAME_SIZE);
            let ghost base = seen as int;
            let ghost rf = region_frames((start, length));
            let mut a = lo;
            proof {
                assert(usable_frames(v.regions.take(i + 1)) == usable_frames(v.regions.take(i as int)) + rf);
            }
            while a < hi && taken < BATCH_FRAMES
                invariant
                    self.regions@ == v.regions,
                    self.current_batch_end == v.batch_end,
                    b == v.batch_end,
                    all == usable_frames(v.regions),
                    b <= all.len() <= usize::MAX,
                    i < v.regions.len(),
                    lo == frame_up(start as int),
                    hi == frame_down(start + length),
                    lo % 4096 == 0,
                    hi % 4096 == 0,
                    rf == region_frames((start, length)),
                    base == usable_frames(v.regions.take(i as int)).len(),
                    usable_frames(v.regions.take(i + 1)) == usable_frames(v.regions.take(i as int)) + rf,
                    usable_frames(v.regions.take(i + 1)).len() <= all.len(),
                    forall|x: int|
                        0 <= x < usable_frames(v.regions.take(i + 1)).len() ==> #[trigger] all[x]
                            == usable_frames(v.regions.take(i + 1))[x],
                    lo <= a,
                    a % 4096 == 0,
                    a < hi ==> seen == base + (a - lo) / 4096,
                    a >= hi ==> seen == base + rf.len() || taken == BATCH_FRAMES,
                    (a - lo) / 4096 <= rf.len(),
                    seen <= all.len(),
                    taken <= BATCH_FRAMES,
                    (seen <= b && taken == 0) || (seen == b + taken),
                    self.free@ == f0 + all.subrange(b, b + taken),
                decreases hi - a, BATCH_FRAMES - taken,
            {
                let ghost j = (a - lo) / 4096;
                proof {
                    assert(lo < hi);
                    assert(rf.len() == (hi - lo) / 4096);
                    assert(a + 4096 <= hi) by (nonlinear_arith)
                        requires
                            a < hi,
                            a % 4096 == 0,
                            hi % 4096 == 0,
                    ;
                    assert(j < rf.len()) by (nonlinear_arith)
                        requires
                            j == (a - lo) / 4096,
                            a + 4096 <= hi,
                            rf.len() == (hi - lo) / 4096,
                            lo <= a,
                    ;
                    assert((a - lo) % 4096 == 0);
                    assert(rf[j] == a) by (nonlinear_arith)
                        requires
                            rf[j] == (lo + 4096 * j) as u64,
                            j == (a - lo) / 4096,
                            (a - lo) % 4096 == 0,
                            lo <= a,
                            a <= u64::MAX,
                    ;
                    assert(all[seen as int] == a);
                }
                if seen >= self.current_batch_end {
                    proof {
                        assert(seen as int == b + taken);
                        assert(seen < usable_frames(v.regions.take(i + 1)).len());
                        assert(b + taken < all.len());
                        assert(all[b + taken] == a);
                    }
                    self.free.push(a);
                    proof {
                        assert(all.subrange(b, b + taken + 1) =~= all.subrange(b, b + taken).push(a));
                    }
                    taken = taken + 1;
                }
                seen = seen + 1;
                a = a + FRAME_SIZE;
                proof {
                    assert((a - lo) / 4096 == j + 1) by (nonlinear_arith)
                        requires
                            a - 4096 - lo == 4096 * j,
                    ;
                }
            }
            i = i + 1;
        }
        proof {
            if taken < BATCH_FRAMES {
                assert(v.regions.take(i as int) =~= v.regions);
                assert(seen == all.len());
            }
        }
        self.current_batch_end = self.current_batch_end + taken;
        proof {
            assert(next_batch(v) =~= all.subrange(b, b + taken));
        }
    }

    /// Hands out a frame, taking a batch first when none is free; none is
    /// handed out when the regions are used up.
    pub fn allocate_frame(&mut self) -> (r: Option<u64>)
        requires
            old(self).wf(),
        ensures
            final(self).wf(),
            (final(self)@, r) == allocate_spec(old(self)@),
    {
        if self.free.len() == 0 {
            self.add_batch();
            if self.free.len() == 0 {
                return None;
            }
        }
        self.free.pop()
    }

    /// Frees `frame`: it is the next to be handed out.
    pub fn deallocate_frame(&mut self, frame: u64)
        requires
            old(self).wf(),
        ensures
            final(self).wf(),
            final(self)@ == deallocate_spec(old(self)@, frame),
    {
        self.free.push(frame);
    }
}

/// A frame freed is the next handed out, and the allocator is then as it
/// was before the frame was freed.
pub proof fn law_free_then_allocate(v: AllocView, f: u64)
    ensures
        allocate_spec(deallocate_spec(v, f)) == (v, Some(f)),
{
    assert(v.free.push(f).drop_last() =~= v.free);
}

/// Every free frame lies wholly inside a usable region.
pub open spec fn free_usable(v: AllocView) -> bool {
    forall|k: int| 0 <= k < v.free.len() ==> usable(v.regions, #[trigger] v.free[k])
}

/// When every free frame lies in a usable region, so does the frame handed
/// out, and so do the frames that stay free.
pub proof fn law_allocated_frames_usable(v: AllocView)
    requires
        regions_ok(v.regions),
        v.batch_end <= usable_frames(v.regions).len(),
        free_usable(v),
    ensures
        allocate_spec(v).1 matches Some(f) ==> usable(v.regions, f),
        free_usable(allocate_spec(v).0),
{
    law_usable_frames_lie_in_regions(v.regions);
    let all = usable_frames(v.regions);
    let w = if v.free.len() == 0 {
        add_batch_spec(v)
    } else {
        v
    };
    let nb = next_batch(v);
    assert forall|k: int| 0 <= k < nb.len() implies usable(v.regions, #[trigger] nb[k]) by {
        assert(nb[k] == all[v.batch_end + k]);
    }
    assert(free_usable(w)) by {
        assert forall|k: int| 0 <= k < w.free.len() implies usable(w.regions, #[trigger] w.free[k]) by {
            if v.free.len() == 0 {
                assert(w.free[k] == nb[k]);
            }
        }
    }
    if w.free.len() > 0 {
        assert(w.free.last() == w.free[w.free.len() - 1]);
        let rest = w.free.drop_last();
        assert forall|k: int| 0 <= k < rest.len() implies usable(w.regions, #[trigger] rest[k]) by {
            assert(rest[k] == w.free[k]);
        }
    }
}

} // verus!
