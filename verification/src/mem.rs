//! Memory arithmetic: aligning sizes and addresses, and the physical and
//! virtual address types.
use vstd::prelude::*;

verus! {

/// Whether `a` is a power of two.
pub open spec fn is_pow2(a: usize) -> bool {
    a > 0 && a & ((a - 1) as usize) == 0
}

/// Rounds `n` up to a multiple of `alignment`, by masking: for a power of
/// two this is the least multiple of it (no bit below it set) that is not
/// below `n`.
pub fn align_up(n: usize, alignment: usize) -> (r: usize)
    requires
        alignment >= 1,
        n + alignment - 1 <= usize::MAX,
    ensures
        r == ((n + alignment - 1) as usize) & !((alignment - 1) as usize),
        is_pow2(alignment) ==> r & ((alignment - 1) as usize) == 0 && n <= r && r < n + alignment,
{
    let mask = alignment - 1;
    let m = n + mask;
    let r = m & !mask;
    proof {
        let a = alignment;
        assert(r <= m) by (bit_vector)
            requires
                r == m & !mask,
        ;
        assert(m - r == m & mask) by (bit_vector)
            requires
                r == m & !mask,
        ;
        if is_pow2(a) {
            assert(r & mask == 0) by (bit_vector)
                requires
                    r == m & !mask,
            ;
            assert(m & mask < a) by (bit_vector)
                requires
                    mask == a - 1,
                    a > 0,
                    a & mask == 0,
            ;
        }
    }
    r
}

/// A physical address.
#[derive(Clone, Copy, Debug, PartialEq, Eq, Structural)]
pub struct PhysAddr {
    inner: u64,
}

impl View for PhysAddr {
    type V = u64;

    closed spec fn view(&self) -> u64 {
        self.inner
    }
}

impl PhysAddr {
    pub fn new(addr: u64) -> (r: Self)
        ensures
            r@ == addr,
    {
        PhysAddr { inner: addr }
    }

    pub fn into_inner(self) -> (r: u64)
        ensures
            r == self@,
    {
        self.inner
    }
}

/// A virtual address.
#[derive(Clone, Copy, Debug, PartialEq, Eq, Structural)]
pub struct VirtAddr {
    inner: u64,
}

impl View for VirtAddr {
    type V = u64;

    closed spec fn view(&self) -> u64 {
        self.inner
    }
}

impl VirtAddr {
    pub fn new(addr: u64) -> (r: Self)
        ensures
            r@ == addr,
    {
        VirtAddr { inner: addr }
    }

    pub fn into_inner(self) -> (r: u64)
        ensures
            r == self@,
    {
        self.inner
    }

    /// The virtual address that carries the same number as a physical one.
    pub fn from_phys(phys: PhysAddr) -> (r: Self)
        ensures
            r@ == phys@,
    {
        VirtAddr { inner: phys.into_inner() }
    }
}

/// The virtual address at which the physical address `addr` is mapped,
/// given the offset at which the boot loader maps physical memory.
pub fn virt_with_offset(addr: u64, phys_offset: u64) -> (r: VirtAddr)
    requires
        addr + phys_offset <= u64::MAX,
    ensures
        r@ == addr + phys_offset,
{
    VirtAddr::new(addr + phys_offset)
}

} // verus!
