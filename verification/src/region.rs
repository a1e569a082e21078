//! The page arithmetic of mapping memory regions: which pages a region
//! covers, and the walk that maps a region of one address space into
//! another page by page. Looking pages up and writing page tables is the
//! caller's part; it hands in what it found, and is told what to map.
use vstd::prelude::*;

verus! {

/// The size of a page.
pub const PAGE: u64 = 4096;

/// The size of a huge page.
pub const HUGE_PAGE: u64 = 0x20_0000;

/// The pages (by number) that mapping a new region of `len` bytes from
/// `start` covers: from the page holding `start` up to, not including, the
/// page holding the end rounded up to a page.
pub fn map_region_pages(start: u64, len: u64) -> (r: (u64, u64))
    requires
        start + len + PAGE - 1 <= u64::MAX,
    ensures
        r.0 == start / PAGE,
        r.1 == (start + len + PAGE - 1) / (PAGE as int),
{
    let end = start + len;
    let end_up = end + (PAGE - 1);
    (start / PAGE, end_up / PAGE)
}

/// The pages (by number) that unmapping a region of `len` bytes from
/// `start` covers: exactly those that overlap `start..start + len`, from the
/// page holding `start` up to, not including, the page holding the end
/// rounded up to a page.
pub fn unmap_region_pages(start: u64, len: u64) -> (r: (u64, u64))
    requires
        start + len + PAGE - 1 <= u64::MAX,
    ensures
        r.0 == start / PAGE,
        r.1 == (start + len + PAGE - 1) / (PAGE as int),
{
    let end = start + len;
    let end_up = end + (PAGE - 1);
    (start / PAGE, end_up / PAGE)
}

/// A region being mapped, page by page, from a donor address space into a
/// target one: the next target and donor pages (by number), the pages each
/// range ends before, how many bytes are mapped so far out of `len`, and
/// where the donor's first byte lands in the target.
#[derive(Debug, Clone, Copy, PartialEq, Eq, Structural)]
pub struct RegionMap {
    pub to_next: u64,
    pub to_end: u64,
    pub from_next: u64,
    pub from_end: u64,
    pub mapped: u64,
    pub len: u64,
    pub target: u64,
}

/// What the walk asks for next.
#[derive(Debug, Clone, Copy, PartialEq, Eq, Structural)]
pub enum MapStep {
    /// Look up the target page and the donor page at these addresses, and
    /// hand in what was found.
    Pages { to: u64, from: u64 },
    /// The region is mapped; the donor's first byte now lies here.
    Done(u64),
}

/// What the donor's page tables say of a donor page.
#[derive(Debug, Clone, Copy, PartialEq, Eq, Structural)]
pub enum Lookup {
    /// The page is mapped to the frame at this physical address.
    Frame(u64),
    /// The page lies inside a huge page.
    HugePage,
    /// The page is not mapped.
    Missing,
}

/// Why mapping a region stops.
#[derive(Debug, Clone, Copy, PartialEq, Eq, Structural)]
pub enum MapError {
    /// A target page is mapped already.
    AlreadyMapped,
    /// A huge page lies below the direct map of physical memory.
    HugePageBelowDirectMap,
    /// A donor page is not mapped.
    NotInDonor,
}

/// What the caller does for the pages of a step.
#[derive(Debug, Clone, Copy, PartialEq, Eq, Structural)]
pub enum MapAction {
    /// Map the target page at `to` to the frame at `frame`.
    Page { to: u64, frame: u64 },
    /// Map `count` pages from `to` on to the frames from `phys` on.
    Run { to: u64, phys: u64, count: u64 },
    /// Stop, failing.
    Fail(MapError),
}

/// Starting to map `len` bytes from `from` in the donor to `start` in the
/// target: each range runs over the pages that overlap it, from the page
/// holding its first byte up to, not including, the page holding its end
/// rounded up to a page; the donor's first byte lands at `start` moved by
/// its offset in its page.
pub fn region_start(start: u64, len: u64, from: u64) -> (r: RegionMap)
    requires
        start + len + PAGE - 1 <= u64::MAX,
        from + len + PAGE - 1 <= u64::MAX,
        start + PAGE <= u64::MAX,
    ensures
        r.to_next == start / PAGE,
        r.to_end == (start + len + PAGE - 1) / (PAGE as int),
        r.from_next == from / PAGE,
        r.from_end == (from + len + PAGE - 1) / (PAGE as int),
        r.mapped == 0,
        r.len == len,
        r.target == start + from % PAGE,
{
    RegionMap {
        to_next: start / PAGE,
        to_end: (start + len + (PAGE - 1)) / PAGE,
        from_next: from / PAGE,
        from_end: (from + len + (PAGE - 1)) / PAGE,
        mapped: 0,
        len,
        target: start + from % PAGE,
    }
}

/// The state after a step that consumed `n` pages of each range and mapped
/// `bytes` more.
pub open spec fn advanced(m: RegionMap, n: u64, bytes: u64) -> RegionMap {
    RegionMap {
        to_next: (m.to_next + n) as u64,
        from_next: (m.from_next + n) as u64,
        mapped: (m.mapped + bytes) as u64,
        ..m
    }
}

/// How much of a huge page a step maps: the rest of the region, at most a
/// huge page.
pub open spec fn huge_amount(m: RegionMap) -> u64 {
    if HUGE_PAGE < m.len - m.mapped {
        HUGE_PAGE
    } else {
        (m.len - m.mapped) as u64
    }
}

impl RegionMap {
    /// What to do next: look up the next pages while both ranges have one;
    /// otherwise the region is mapped.
    pub fn next(&self) -> (r: MapStep)
        requires
            self.to_end <= u64::MAX / PAGE,
            self.from_end <= u64::MAX / PAGE,
        ensures
            r == (if self.to_next < self.to_end && self.from_next < self.from_end {
                MapStep::Pages { to: (self.to_next * PAGE) as u64, from: (self.from_next * PAGE) as u64 }
            } else {
                MapStep::Done(self.target)
            }),
    {
        if self.to_next < self.to_end && self.from_next < self.from_end {
            proof {
                assert(self.to_next * PAGE <= u64::MAX) by (nonlinear_arith)
                    requires
                        self.to_next < self.to_end,
                        self.to_end <= u64::MAX / PAGE,
                ;
                assert(self.from_next * PAGE <= u64::MAX) by (nonlinear_arith)
                    requires
                        self.from_next < self.from_end,
                        self.from_end <= u64::MAX / PAGE,
                ;
            }
            MapStep::Pages { to: self.to_next * PAGE, from: self.from_next * PAGE }
        } else {
            MapStep::Done(self.target)
        }
    }

    /// One step, with what the target's page tables say of the target page
    /// (`to_mapped`) and the donor's of the donor page (`found`), and where
    /// the direct map of physical memory begins (`hhdm`) and lies
    /// (`phys_offset`). A target page already mapped, or a donor page not
    /// mapped, stops the walk. A donor frame is mapped to the target page,
    /// and both ranges move on a page. A donor page inside a huge page,
    /// which must lie in the direct map, has its physical frames mapped
    /// directly, for the rest of the region up to a huge page; both ranges
    /// move on by as many pages (at least one).
    pub fn step(&mut self, to_mapped: bool, found: Lookup, hhdm: u64, phys_offset: u64) -> (r: MapAction)
        requires
            old(self).to_next < old(self).to_end <= u64::MAX / PAGE,
            old(self).from_next < old(self).from_end <= u64::MAX / PAGE,
            !to_mapped && found is Frame ==> old(self).mapped + PAGE <= u64::MAX,
            !to_mapped && found is HugePage && old(self).from_next * PAGE >= hhdm ==> old(self).mapped <= old(self).len
                && phys_offset <= old(self).from_next * PAGE
                && old(self).from_next * PAGE - phys_offset + HUGE_PAGE <= u64::MAX,
        ensures
            to_mapped ==> r == MapAction::Fail(MapError::AlreadyMapped) && *final(self) == *old(self),
            !to_mapped ==> match found {
                Lookup::Frame(f) => r == (MapAction::Page { to: (old(self).to_next * PAGE) as u64, frame: f })
                    && *final(self) == advanced(*old(self), 1, PAGE),
                Lookup::Missing => r == MapAction::Fail(MapError::NotInDonor) && *final(self) == *old(self),
                Lookup::HugePage => if old(self).from_next * PAGE < hhdm {
                    r == MapAction::Fail(MapError::HugePageBelowDirectMap) && *final(self) == *old(self)
                } else {
                    let phys = old(self).from_next * PAGE - phys_offset;
                    let amount = huge_amount(*old(self));
                    let first = phys / PAGE as int;
                    let last = (phys + amount) / PAGE as int;
                    let pages = amount / PAGE;
                    &&& r == (MapAction::Run {
                        to: (old(self).to_next * PAGE) as u64,
                        phys: (first * PAGE) as u64,
                        count: (last - first) as u64,
                    })
                    &&& *final(self) == advanced(*old(self), (if pages == 0 { 1 } else { pages }) as u64, amount)
                },
            },
    {
        if to_mapped {
            return MapAction::Fail(MapError::AlreadyMapped);
        }
        proof {
            assert(self.to_next * PAGE <= u64::MAX) by (nonlinear_arith)
                requires
                    self.to_next < self.to_end,
                    self.to_end <= u64::MAX / PAGE,
            ;
            assert(self.from_next * PAGE <= u64::MAX) by (nonlinear_arith)
                requires
                    self.from_next < self.from_end,
                    self.from_end <= u64::MAX / PAGE,
            ;
        }
        let to = self.to_next * PAGE;
        let from = self.from_next * PAGE;
        match found {
            Lookup::Frame(f) => {
                self.to_next = self.to_next + 1;
                self.from_next = self.from_next + 1;
                self.mapped = self.mapped + PAGE;
                MapAction::Page { to, frame: f }
            },
            Lookup::Missing => MapAction::Fail(MapError::NotInDonor),
            Lookup::HugePage => {
                if from < hhdm {
                    return MapAction::Fail(MapError::HugePageBelowDirectMap);
                }
                let rest = self.len - self.mapped;
                let amount = if HUGE_PAGE < rest {
                    HUGE_PAGE
                } else {
                    rest
                };
                let phys = from - phys_offset;
                let first = phys / PAGE;
                let last = (phys + amount) / PAGE;
                proof {
                    assert(first <= last) by (nonlinear_arith)
                        requires
                            first == phys / PAGE,
                            last == (phys + amount) / (PAGE as int),
                            amount >= 0,
                    ;
                    assert(first * PAGE <= phys) by (nonlinear_arith)
                        requires
                            first == phys / PAGE,
                    ;
                }
                let pages = amount / PAGE;
                let n = if pages == 0 {
                    1
                } else {
                    pages
                };
                self.to_next = self.to_next + n;
                self.from_next = self.from_next + n;
                self.mapped = self.mapped + amount;
                MapAction::Run { to, phys: first * PAGE, count: last - first }
            },
        }
    }
}

/// Page-table flag: the page is present.
pub const PRESENT: u64 = 1;

/// Page-table flag: the page may be written.
pub const WRITABLE: u64 = 2;

/// Page-table flag: user code may reach the page.
pub const USER_ACCESSIBLE: u64 = 4;

/// Page-table flag: code on the page may not run.
pub const NO_EXECUTE: u64 = 0x8000_0000_0000_0000;

/// Program-header flag: the segment may run.
pub const PF_X: u32 = 1;

/// Program-header flag: the segment may be written.
pub const PF_W: u32 = 2;

/// The page-table flags of a loaded segment: present and reachable by user
/// code; writable when the segment is; not executable unless it is.
pub fn segment_page_flags(elf_flags: u32) -> (r: u64)
    ensures
        r == PRESENT | USER_ACCESSIBLE | (if elf_flags & PF_W != 0 { WRITABLE } else { 0 }) | (if elf_flags
            & PF_X == 0 {
            NO_EXECUTE
        } else {
            0
        }),
{
    let w: u64 = if elf_flags & PF_W != 0 {
        WRITABLE
    } else {
        0
    };
    let x: u64 = if elf_flags & PF_X == 0 {
        NO_EXECUTE
    } else {
        0
    };
    let flags = PRESENT | USER_ACCESSIBLE | w | x;
    flags
}

/// How a loadable segment is put in memory.
#[derive(Debug, Clone, Copy, PartialEq, Eq)]
pub struct SegmentPlan {
    /// The first page (by number) the segment covers.
    pub first_page: u64,
    /// The last page (by number) it covers.
    pub last_page: u64,
    /// The page-table flags of its pages.
    pub flags: u64,
    /// Where in the image its file bytes start, and how many there are.
    pub copy_from: usize,
    pub copy_len: usize,
    /// Where zeroes go after the file bytes, and how many; none when the
    /// segment is no larger in memory than in the file.
    pub zero: Option<(u64, u64)>,
}

/// Planning a segment at `vaddr`, `memsz` bytes in memory, whose `filesz`
/// file bytes start at `offset` in an image of `data_len` bytes: its pages
/// run from the one holding `vaddr` to the one holding its last byte; the
/// rest of the segment past the file bytes is zeroed.
pub fn segment_plan(vaddr: u64, memsz: u64, offset: u64, filesz: u64, elf_flags: u32, data_len: usize) -> (r: SegmentPlan)
    requires
        1 <= vaddr + memsz <= u64::MAX,
        vaddr + filesz <= u64::MAX,
        offset + filesz <= data_len,
    ensures
        r.first_page == vaddr / PAGE,
        r.last_page == (vaddr + memsz - 1) / (PAGE as int),
        r.flags == PRESENT | USER_ACCESSIBLE | (if elf_flags & PF_W != 0 { WRITABLE } else { 0 }) | (if elf_flags
            & PF_X == 0 {
            NO_EXECUTE
        } else {
            0
        }),
        r.copy_from == offset,
        r.copy_len == filesz,
        r.zero == (if memsz > filesz {
            Some(((vaddr + filesz) as u64, (memsz - filesz) as u64))
        } else {
            None
        }),
{
    let last = vaddr + memsz - 1;
    SegmentPlan {
        first_page: vaddr / PAGE,
        last_page: last / PAGE,
        flags: segment_page_flags(elf_flags),
        copy_from: offset as usize,
        copy_len: filesz as usize,
        zero: if memsz > filesz {
            Some((vaddr + filesz, memsz - filesz))
        } else {
            None
        },
    }
}

} // verus!
