//! Types that every layer of the kernel shares.

use vstd::prelude::*;

verus! {

/// Bytes per page.
pub const PAGE_SIZE: u64 = 4096;

/// Base-two logarithm of [`PAGE_SIZE`].
pub const PAGE_SHIFT: u64 = 12;

/// Bytes per huge page.
pub const HUGE_PAGE_SIZE: u64 = 2097152;

/// Base-two logarithm of [`HUGE_PAGE_SIZE`].
pub const HUGE_PAGE_SHIFT: u64 = 21;

/// Number of buddy orders; the largest block is `2^10` pages, 4 MiB.
pub const BUDDY_MAX_ORDER: usize = 11;

/// Snapshot of an allocator's counters.
#[derive(Debug, Clone, Copy, PartialEq, Eq, Structural)]
pub struct AllocStats {
    /// Bytes under management.
    pub total_bytes: u64,
    /// Bytes currently allocated.
    pub used_bytes: u64,
    /// Bytes free but not given back.
    pub free_bytes: u64,
    /// Successful allocations so far.
    pub alloc_count: u64,
    /// Deallocations so far.
    pub dealloc_count: u64,
    /// Highest `used_bytes` so far.
    pub peak_bytes: u64,
}

impl AllocStats {
    /// All counters at zero.
    pub open spec fn zero() -> AllocStats {
        AllocStats {
            total_bytes: 0,
            used_bytes: 0,
            free_bytes: 0,
            alloc_count: 0,
            dealloc_count: 0,
            peak_bytes: 0,
        }
    }

    /// The larger of the recorded peak and `used`.
    pub open spec fn peak_with(self, used: int) -> int {
        if used > self.peak_bytes {
            used
        } else {
            self.peak_bytes as int
        }
    }
}

impl Default for AllocStats {
    fn default() -> (s: AllocStats)
        ensures
            s == AllocStats::zero(),
    {
        AllocStats {
            total_bytes: 0,
            used_bytes: 0,
            free_bytes: 0,
            alloc_count: 0,
            dealloc_count: 0,
            peak_bytes: 0,
        }
    }
}

/// What a physical memory region is for, as the bootloader reports it.
#[derive(Debug, Clone, Copy, PartialEq, Eq, Structural)]
pub enum MemoryRegionKind {
    /// Free for any use.
    Usable,
    /// Not to be touched.
    Reserved,
    /// Free once the ACPI tables were read.
    AcpiReclaimable,
    /// Registers of a device.
    Mmio,
    /// Free once the bootloader's data is no longer needed.
    BootloaderReclaimable,
    /// The kernel image and its modules.
    KernelAndModules,
    /// A frame buffer.
    Framebuffer,
}

/// A range of physical addresses of one kind.
#[derive(Debug, Clone, Copy, PartialEq, Eq, Structural)]
pub struct MemoryRegion {
    /// First address.
    pub base: u64,
    /// Bytes.
    pub length: u64,
    /// What the range is for.
    pub kind: MemoryRegionKind,
}

impl MemoryRegion {
    /// The address behind the region.
    pub fn end(&self) -> (e: u64)
        requires
            self.base + self.length <= u64::MAX,
        ensures
            e == self.base + self.length,
    {
        self.base + self.length
    }

    /// Whole pages in the region.
    pub fn page_count(&self) -> (n: u64)
        ensures
            n == self.length / PAGE_SIZE,
    {
        self.length / PAGE_SIZE
    }
}

/// The regions of kind `kind`, in order.
pub open spec fn of_kind(regions: Seq<MemoryRegion>, kind: MemoryRegionKind) -> Seq<MemoryRegion> {
    regions.filter(|r: MemoryRegion| r.kind == kind)
}

/// What the kernel is told at entry, whatever the boot protocol.
pub struct KernelBootInfo {
    /// The physical memory map.
    pub memory_regions: Vec<MemoryRegion>,
    /// What is added to a physical address to get the address it is mapped at.
    pub hhdm_offset: u64,
    /// Physical address of the kernel image.
    pub kernel_phys_base: u64,
}

impl KernelBootInfo {
    /// The regions of kind `kind`, in order.
    pub fn regions_of_kind(&self, kind: MemoryRegionKind) -> (r: Vec<MemoryRegion>)
        ensures
            r@ == of_kind(self.memory_regions@, kind),
    {
        let mut r: Vec<MemoryRegion> = Vec::new();
        let mut i: usize = 0;
        let n: usize = self.memory_regions.len();
        proof {
            reveal(Seq::filter);
        }
        while i < n
            invariant
                i <= n,
                n == self.memory_regions@.len(),
                r@ == of_kind(self.memory_regions@.take(i as int), kind),
            decreases n - i,
        {
            let region: MemoryRegion = self.memory_regions[i];
            proof {
                let before = self.memory_regions@.take(i as int);
                let after = self.memory_regions@.take(i + 1);
                assert(after.drop_last() =~= before);
                assert(after.last() == region);
                reveal(Seq::filter);
            }
            if region.kind == kind {
                r.push(region);
            }
            i = i + 1;
        }
        proof {
            assert(self.memory_regions@.take(n as int) =~= self.memory_regions@);
        }
        r
    }

    /// The address that a physical address is mapped at.
    pub fn phys_to_virt(&self, phys: u64) -> (virt: u64)
        requires
            self.hhdm_offset + phys <= u64::MAX,
        ensures
            virt == self.hhdm_offset + phys,
    {
        self.hhdm_offset + phys
    }
}

/// The regions of a kind are those of one part of a map and then those of the other; and of a
/// single region, it is there exactly if it is of the kind.
pub proof fn law_of_kind(
    first: Seq<MemoryRegion>,
    second: Seq<MemoryRegion>,
    r: MemoryRegion,
    kind: MemoryRegionKind,
)
    ensures
        of_kind(first + second, kind) == of_kind(first, kind) + of_kind(second, kind),
        r.kind == kind ==> of_kind(seq![r], kind) == seq![r],
        r.kind != kind ==> of_kind(seq![r], kind) == Seq::<MemoryRegion>::empty(),
        of_kind(Seq::empty(), kind) == Seq::<MemoryRegion>::empty(),
{
    let pred = |r: MemoryRegion| r.kind == kind;
    Seq::filter_distributes_over_add(first, second, pred);
    reveal(Seq::filter);
    assert(seq![r].drop_last() =~= Seq::empty());
    assert(Seq::<MemoryRegion>::empty().filter(pred) =~= Seq::empty());
    assert(of_kind(seq![r], kind) =~= if r.kind == kind {
        seq![r]
    } else {
        Seq::empty()
    });
}

/// Fresh counters are all zero; a peak is the larger of what it was and what is used.
pub proof fn law_counters(s: AllocStats, used: int)
    ensures
        AllocStats::zero().total_bytes == 0,
        AllocStats::zero().used_bytes == 0,
        AllocStats::zero().free_bytes == 0,
        AllocStats::zero().alloc_count == 0,
        AllocStats::zero().dealloc_count == 0,
        AllocStats::zero().peak_bytes == 0,
        s.peak_with(used) >= used,
        s.peak_with(used) >= s.peak_bytes,
        s.peak_with(used) == used || s.peak_with(used) == s.peak_bytes,
        PAGE_SIZE == 4096,
        BUDDY_MAX_ORDER == 11,
{
}

/// A region ends behind its last byte, has as many pages as fit in it whole, and its address
/// and that which it is mapped at are always the same distance apart.
pub proof fn law_region(
    r: &MemoryRegion,
    end: u64,
    pages: u64,
    info: &KernelBootInfo,
    a: u64,
    b: u64,
    x: u64,
    y: u64,
)
    requires
        r.base + r.length <= u64::MAX,
        call_ensures(MemoryRegion::end, (r,), end),
        call_ensures(MemoryRegion::page_count, (r,), pages),
        info.hhdm_offset + a <= u64::MAX,
        info.hhdm_offset + b <= u64::MAX,
        call_ensures(KernelBootInfo::phys_to_virt, (info, a), x),
        call_ensures(KernelBootInfo::phys_to_virt, (info, b), y),
    ensures
        end - r.base == r.length,
        pages * 4096 <= r.length < (pages + 1) * 4096,
        x - a == info.hhdm_offset,
        x - y == a - b,
{
}

} // verus!
