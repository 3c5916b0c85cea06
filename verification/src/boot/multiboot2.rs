//! The Multiboot2 protocol.
//!
//! The bootloader maps the first two mebibytes of physical memory at [`HHDM_OFFSET`] and
//! hands over a memory map, whose areas are trimmed to whole pages.

use crate::align::{
    align_down, align_up, aligned_down, aligned_up, law_aligned_down, law_aligned_up,
};
use crate::boot::info::{BootInfo, ElfSection, MemoryArea};
use crate::framework::{KernelBootInfo, MemoryRegion, MemoryRegionKind, PAGE_SIZE};
use vstd::prelude::*;

verus! {

/// Where physical memory is mapped.
pub const HHDM_OFFSET: u64 = 0xffff_ffff_8000_0000;

/// Bytes of physical memory that are mapped at boot.
pub const BOOT_MAPPED_PHYS: u64 = 0x20_0000;

/// Memory above the kernel image and what the bootloader left, from here on.
pub const HEAP_START_PHYS: u64 = 0x16_0000;

/// Where the kernel image is loaded unless it says otherwise.
pub const KERNEL_PHYS_BASE: u64 = 0x10_0000;

/// Regions that are kept of a memory map.
pub const MAX_REGIONS: usize = 128;

/// Flag of a section that takes up memory.
pub const SECTION_ALLOCATED: u64 = 2;

/// Types of memory areas.
#[derive(Debug, Clone, Copy, PartialEq, Eq, Structural)]
pub enum AreaType {
    /// Free for any use.
    Available,
    /// Not to be touched.
    Reserved,
    /// Holds firmware tables and is free afterwards.
    AcpiAvailable,
    /// To be kept over hibernation.
    ReservedHibernate,
    /// Broken.
    Defective,
    /// Any other number.
    Custom(u32),
}

/// The type that a number stands for.
pub open spec fn area_type_of(raw: u32) -> AreaType {
    if raw == 1 {
        AreaType::Available
    } else if raw == 2 {
        AreaType::Reserved
    } else if raw == 3 {
        AreaType::AcpiAvailable
    } else if raw == 4 {
        AreaType::ReservedHibernate
    } else if raw == 5 {
        AreaType::Defective
    } else {
        AreaType::Custom(raw)
    }
}

/// [`multiboot2::MemoryAreaType::from_val`]: the numbers from one to five stand for the five
/// types of the protocol, and every other number for itself.
#[verifier::external_body]
fn area_type(raw: u32) -> (t: AreaType)
    ensures
        t == area_type_of(raw),
{
    match ::multiboot2::MemoryAreaType::from_val(raw) {
        ::multiboot2::MemoryAreaType::Available => AreaType::Available,
        ::multiboot2::MemoryAreaType::Reserved => AreaType::Reserved,
        ::multiboot2::MemoryAreaType::AcpiAvailable => AreaType::AcpiAvailable,
        ::multiboot2::MemoryAreaType::ReservedHibernate => AreaType::ReservedHibernate,
        ::multiboot2::MemoryAreaType::Defective => AreaType::Defective,
        ::multiboot2::MemoryAreaType::Custom(other) => AreaType::Custom(other),
    }
}

/// What an area of a given type is for.
pub open spec fn kind_of(typ: AreaType) -> MemoryRegionKind {
    match typ {
        AreaType::Available => MemoryRegionKind::Usable,
        AreaType::AcpiAvailable => MemoryRegionKind::AcpiReclaimable,
        _ => MemoryRegionKind::Reserved,
    }
}

impl MemoryArea {
    /// Address of the first whole page from the start on.
    pub open spec fn first_page(self) -> int {
        aligned_up(self.start_address as int, PAGE_SIZE as int)
    }

    /// Address behind the last whole page.
    pub open spec fn end_page(self) -> int {
        aligned_down(self.start_address + self.size, PAGE_SIZE as int)
    }

    /// The area holds a whole page.
    pub open spec fn has_pages(self) -> bool {
        self.first_page() < self.end_page()
    }

    /// The whole pages of the area.
    pub open spec fn pages(self) -> MemoryRegion {
        MemoryRegion {
            base: self.first_page() as u64,
            length: (self.end_page() - self.first_page()) as u64,
            kind: kind_of(area_type_of(self.typ)),
        }
    }

    /// The area ends where addresses exist, and so does the page that it starts in.
    pub open spec fn in_bounds(self) -> bool {
        self.start_address + self.size <= u64::MAX && self.start_address + (PAGE_SIZE - 1)
            <= u64::MAX
    }
}

/// The areas that hold a whole page, in order.
pub open spec fn with_pages(areas: Seq<MemoryArea>) -> Seq<MemoryArea> {
    areas.filter(|a: MemoryArea| a.has_pages())
}

/// The regions of a memory map: the whole pages of its areas, in order, up to
/// [`MAX_REGIONS`] of them.
pub open spec fn regions_of(areas: Seq<MemoryArea>) -> Seq<MemoryRegion> {
    let all = with_pages(areas).map_values(|a: MemoryArea| a.pages());
    if all.len() <= MAX_REGIONS {
        all
    } else {
        all.take(MAX_REGIONS as int)
    }
}

/// Every area that is looked at before there are [`MAX_REGIONS`] regions is in bounds.
pub open spec fn map_in_bounds(areas: Seq<MemoryArea>) -> bool {
    forall|i: int|
        0 <= i < areas.len() && with_pages(areas.take(i)).len() < MAX_REGIONS
            ==> #[trigger] areas[i].in_bounds()
}

/// Tells whether every area that is looked at before there are [`MAX_REGIONS`] regions is in
/// bounds.
pub fn map_fits(areas: &Vec<MemoryArea>) -> (b: bool)
    ensures
        b == map_in_bounds(areas@),
{
    let mut kept: usize = 0;
    let mut i: usize = 0;
    assert(PAGE_SIZE & ((PAGE_SIZE - 1) as u64) == 0) by (bit_vector);
    assert(with_pages(areas@.take(0)) =~= Seq::empty()) by {
        reveal(Seq::filter);
    }
    while i < areas.len() && kept < MAX_REGIONS
        invariant
            i <= areas@.len(),
            kept <= MAX_REGIONS,
            PAGE_SIZE & ((PAGE_SIZE - 1) as u64) == 0,
            kept == with_pages(areas@.take(i as int)).len(),
            forall|j: int| 0 <= j < i ==> #[trigger] areas@[j].in_bounds(),
        decreases areas@.len() - i,
    {
        let area: MemoryArea = areas[i];
        if area.size > u64::MAX - area.start_address || area.start_address > u64::MAX - (PAGE_SIZE
            - 1) {
            assert(!areas@[i as int].in_bounds());
            return false;
        }
        proof {
            law_aligned_up(area.start_address as int, PAGE_SIZE as int);
            law_aligned_down(area.start_address + area.size, PAGE_SIZE as int);
            lemma_one_more(areas@, i as int);
        }
        if align_down(area.start_address + area.size, PAGE_SIZE) > align_up(
            area.start_address,
            PAGE_SIZE,
        ) {
            kept = kept + 1;
        }
        i = i + 1;
    }
    proof {
        assert forall|j: int|
            0 <= j < areas@.len() && with_pages(areas@.take(j)).len()
                < MAX_REGIONS implies #[trigger] areas@[j].in_bounds() by {
            if j >= i {
                assert(areas@.take(j).take(i as int) =~= areas@.take(i as int));
                lemma_prefix(areas@.take(j), i as int);
            }
        }
    }
    true
}

proof fn lemma_one_more(areas: Seq<MemoryArea>, i: int)
    requires
        0 <= i < areas.len(),
    ensures
        with_pages(areas.take(i + 1)) == if areas[i].has_pages() {
            with_pages(areas.take(i)).push(areas[i])
        } else {
            with_pages(areas.take(i))
        },
{
    reveal(Seq::filter);
    assert(areas.take(i + 1).drop_last() =~= areas.take(i));
    assert(areas.take(i + 1).last() == areas[i]);
}

proof fn lemma_prefix(areas: Seq<MemoryArea>, i: int)
    requires
        0 <= i <= areas.len(),
    ensures
        with_pages(areas.take(i)).is_prefix_of(with_pages(areas)),
{
    let pred = |a: MemoryArea| a.has_pages();
    assert(areas =~= areas.take(i) + areas.skip(i));
    Seq::filter_distributes_over_add(areas.take(i), areas.skip(i), pred);
}

/// The regions of a memory map.
pub fn regions(areas: &Vec<MemoryArea>) -> (r: Vec<MemoryRegion>)
    requires
        map_in_bounds(areas@),
    ensures
        r@ == regions_of(areas@),
{
    let mut r: Vec<MemoryRegion> = Vec::new();
    let mut i: usize = 0;
    let ghost pages = |a: MemoryArea| a.pages();
    assert(PAGE_SIZE & ((PAGE_SIZE - 1) as u64) == 0) by (bit_vector);
    assert(r@ =~= with_pages(areas@.take(0)).map_values(pages)) by {
        reveal(Seq::filter);
    }
    while i < areas.len() && r.len() < MAX_REGIONS
        invariant
            i <= areas@.len(),
            r@.len() <= MAX_REGIONS,
            map_in_bounds(areas@),
            PAGE_SIZE & ((PAGE_SIZE - 1) as u64) == 0,
            pages == (|a: MemoryArea| a.pages()),
            r@ == with_pages(areas@.take(i as int)).map_values(pages),
        decreases areas@.len() - i,
    {
        let area: MemoryArea = areas[i];
        proof {
            assert(areas@[i as int].in_bounds());
            law_aligned_up(area.start_address as int, PAGE_SIZE as int);
            law_aligned_down(area.start_address + area.size, PAGE_SIZE as int);
            lemma_one_more(areas@, i as int);
        }
        let page_base: u64 = align_up(area.start_address, PAGE_SIZE);
        let page_end: u64 = align_down(area.start_address + area.size, PAGE_SIZE);
        if page_end > page_base {
            let kind: MemoryRegionKind = match area_type(area.typ) {
                AreaType::Available => MemoryRegionKind::Usable,
                AreaType::AcpiAvailable => MemoryRegionKind::AcpiReclaimable,
                _ => MemoryRegionKind::Reserved,
            };
            r.push(MemoryRegion { base: page_base, length: page_end - page_base, kind });
        }
        i = i + 1;
        assert(r@ =~= with_pages(areas@.take(i as int)).map_values(pages));
    }
    proof {
        lemma_prefix(areas@, i as int);
        if i == areas@.len() {
            assert(areas@.take(i as int) =~= areas@);
        }
        assert(r@ =~= regions_of(areas@));
    }
    r
}

/// The address that a section takes up in physical memory.
pub open spec fn section_base(s: ElfSection) -> int {
    if s.start_address >= HHDM_OFFSET {
        s.start_address - HHDM_OFFSET
    } else {
        0
    }
}

/// The section takes up memory.
pub open spec fn allocated(s: ElfSection) -> bool {
    s.flags & SECTION_ALLOCATED != 0
}

/// `base` is the lowest physical address of the sections that take up memory, or
/// [`KERNEL_PHYS_BASE`] if none does.
pub open spec fn is_image_base(sections: Seq<ElfSection>, base: int) -> bool {
    if exists|i: int| 0 <= i < sections.len() && #[trigger] allocated(sections[i]) {
        &&& exists|i: int|
            0 <= i < sections.len() && #[trigger] allocated(sections[i]) && section_base(
                sections[i],
            ) == base
        &&& forall|i: int|
            0 <= i < sections.len() && #[trigger] allocated(sections[i]) ==> base <= section_base(
                sections[i],
            )
    } else {
        base == KERNEL_PHYS_BASE
    }
}

/// Where the kernel image lies in physical memory, by its sections if they are known.
pub fn image_base(sections: Option<&Vec<ElfSection>>) -> (base: u64)
    ensures
        match sections {
            Some(s) => is_image_base(s@, base as int),
            None => base == KERNEL_PHYS_BASE,
        },
{
    match sections {
        None => KERNEL_PHYS_BASE,
        Some(sections) => {
            let mut lowest: Option<u64> = None;
            let mut i: usize = 0;
            while i < sections.len()
                invariant
                    i <= sections@.len(),
                    match lowest {
                        Some(m) => (exists|j: int|
                            0 <= j < i && #[trigger] allocated(sections@[j]) && section_base(
                                sections@[j],
                            ) == m) && (forall|j: int|
                            0 <= j < i && #[trigger] allocated(sections@[j]) ==> m <= section_base(
                                sections@[j],
                            )),
                        None => forall|j: int| 0 <= j < i ==> !#[trigger] allocated(sections@[j]),
                    },
                decreases sections@.len() - i,
            {
                let s: ElfSection = sections[i];
                if s.flags & SECTION_ALLOCATED != 0 {
                    assert(allocated(sections@[i as int]));
                    let base: u64 = s.start_address.saturating_sub(HHDM_OFFSET);
                    let less: bool = match lowest {
                        Some(m) => base < m,
                        None => true,
                    };
                    if less {
                        lowest = Some(base);
                    }
                }
                i = i + 1;
            }
            match lowest {
                Some(m) => m,
                None => KERNEL_PHYS_BASE,
            }
        },
    }
}

/// Lets one caller through.
pub struct Once {
    /// Whether someone came.
    pub entered: bool,
}

impl Once {
    /// Nobody came yet.
    pub fn new() -> (o: Self)
        ensures
            !o.entered,
    {
        Once { entered: false }
    }

    /// Tells whether this is the first call.
    pub fn enter(&mut self) -> (first: bool)
        ensures
            first == !old(self).entered,
            final(self).entered,
    {
        let first: bool = !self.entered;
        self.entered = true;
        first
    }
}

/// The information as the kernel keeps it: `loaded` is what the bootloader handed over, if
/// it could be read. A second call, or information that could not be read, is an error.
pub fn init(once: &mut Once, loaded: Option<BootInfo>) -> (r: Result<BootInfo, &'static str>)
    ensures
        final(once).entered,
        match r {
            Ok(info) => !old(once).entered && loaded == Some(info),
            Err(e) => if old(once).entered {
                e@ == "barnacle::init called more than once"@
            } else {
                loaded is None && e@ == "barnacle: invalid Multiboot2 information structure"@
            },
        },
{
    if !once.enter() {
        return Err("barnacle::init called more than once");
    }
    match loaded {
        Some(info) => Ok(info),
        None => Err("barnacle: invalid Multiboot2 information structure"),
    }
}

/// The memory map of `info` is in bounds, if there is one.
pub open spec fn info_in_bounds(info: BootInfo) -> bool {
    info.memory_map_tag matches Some(areas) ==> map_in_bounds(areas@)
}

/// The regions of the memory map of `info`; none without a map.
pub open spec fn info_regions(info: BootInfo) -> Seq<MemoryRegion> {
    match info.memory_map_tag {
        Some(areas) => regions_of(areas@),
        None => Seq::empty(),
    }
}

/// What the kernel is told, from what the bootloader handed over: without a memory map there
/// are no regions, and the image is where it is loaded by convention.
pub fn kernel_main(info: &BootInfo) -> (k: KernelBootInfo)
    requires
        info_in_bounds(*info),
    ensures
        k.memory_regions@ == info_regions(*info),
        info.memory_map_tag matches Some(areas) ==> k.memory_regions@ == regions_of(areas@),
        info.memory_map_tag is None ==> k.memory_regions@.len() == 0,
        k.hhdm_offset == HHDM_OFFSET,
        k.kernel_phys_base == KERNEL_PHYS_BASE,
{
    let memory_regions: Vec<MemoryRegion> = match info.memory_map() {
        Some(areas) => regions(areas),
        None => Vec::new(),
    };
    KernelBootInfo { memory_regions, hhdm_offset: HHDM_OFFSET, kernel_phys_base: KERNEL_PHYS_BASE }
}

/// As [`kernel_main`], for the first caller only and from information that may be unreadable.
pub fn parse_boot_info(once: &mut Once, loaded: Option<&BootInfo>) -> (r: Result<
    KernelBootInfo,
    &'static str,
>)
    requires
        loaded matches Some(info) ==> info_in_bounds(*info),
    ensures
        final(once).entered,
        match r {
            Ok(k) => !old(once).entered && loaded is Some && k.memory_regions@ == info_regions(
                *loaded->0,
            ) && k.hhdm_offset == HHDM_OFFSET && k.kernel_phys_base == KERNEL_PHYS_BASE,
            Err(e) => if old(once).entered {
                e@ == "barnacle::parse_boot_info called more than once"@
            } else {
                loaded is None && e@ == "barnacle: invalid Multiboot2 information structure"@
            },
        },
{
    if !once.enter() {
        return Err("barnacle::parse_boot_info called more than once");
    }
    match loaded {
        Some(info) => Ok(kernel_main(info)),
        None => Err("barnacle: invalid Multiboot2 information structure"),
    }
}

/// What the kernel is told, where a memory map is required and the sections of the image say
/// where it lies.
pub fn kernel_main_with_sections(loaded: Option<&BootInfo>) -> (r: Result<
    KernelBootInfo,
    &'static str,
>)
    requires
        loaded matches Some(info) ==> info_in_bounds(*info),
    ensures
        match r {
            Ok(k) => {
                &&& loaded is Some
                &&& loaded->0.memory_map_tag is Some
                &&& k.memory_regions@ == info_regions(*loaded->0)
                &&& k.hhdm_offset == HHDM_OFFSET
                &&& match loaded->0.elf_sections_tag {
                    Some(s) => is_image_base(s@, k.kernel_phys_base as int),
                    None => k.kernel_phys_base == KERNEL_PHYS_BASE,
                }
            },
            Err(e) => match loaded {
                None => e@ == "multiboot2: malformed boot information structure"@,
                Some(info) => info.memory_map_tag is None && e@
                    == "multiboot2: no memory map tag — ensure GRUB passes --memory-map"@,
            },
        },
{
    match loaded {
        None => Err("multiboot2: malformed boot information structure"),
        Some(info) => match info.memory_map() {
            None => Err("multiboot2: no memory map tag — ensure GRUB passes --memory-map"),
            Some(areas) => {
                let memory_regions: Vec<MemoryRegion> = regions(areas);
                let kernel_phys_base: u64 = image_base(info.elf_sections());
                Ok(KernelBootInfo { memory_regions, hhdm_offset: HHDM_OFFSET, kernel_phys_base })
            },
        },
    }
}

/// The address of the first page behind the kernel image, which ends at `raw`.
pub fn kernel_end_phys(raw: u64) -> (a: u64)
    requires
        raw + (PAGE_SIZE - 1) <= u64::MAX,
    ensures
        a == aligned_up(raw as int, PAGE_SIZE as int),
        a % PAGE_SIZE == 0,
        raw <= a < raw + PAGE_SIZE,
{
    assert(PAGE_SIZE & ((PAGE_SIZE - 1) as u64) == 0) by (bit_vector);
    align_up(raw, PAGE_SIZE)
}

/// [`HHDM_OFFSET`] is the address that the boot page tables map: entry 511 of the top level,
/// entry 510 of the level below it.
pub proof fn law_hhdm_offset()
    ensures
        HHDM_OFFSET == 0xffff_ff80_0000_0000 + 510 * 0x4000_0000,
{
}

/// Every region of a memory map is made of whole pages, at least one, that lie in one area
/// of the map; and there are never more than [`MAX_REGIONS`].
pub proof fn law_regions(areas: Seq<MemoryArea>)
    requires
        map_in_bounds(areas),
    ensures
        regions_of(areas).len() <= MAX_REGIONS,
        forall|j: int|
            #![trigger regions_of(areas)[j]]
            0 <= j < regions_of(areas).len() ==> {
                let r = regions_of(areas)[j];
                &&& r.base % PAGE_SIZE == 0
                &&& r.length % PAGE_SIZE == 0
                &&& r.length > 0
                &&& exists|i: int|
                    0 <= i < areas.len() && (#[trigger] areas[i]).start_address <= r.base && r.base
                        + r.length <= areas[i].start_address + areas[i].size
            },
{
    assert forall|j: int|
        #![trigger regions_of(areas)[j]]
        0 <= j < regions_of(areas).len() implies {
        let r = regions_of(areas)[j];
        &&& r.base % PAGE_SIZE == 0
        &&& r.length % PAGE_SIZE == 0
        &&& r.length > 0
        &&& exists|i: int|
            0 <= i < areas.len() && (#[trigger] areas[i]).start_address <= r.base && r.base
                + r.length <= areas[i].start_address + areas[i].size
    } by {
        let i = lemma_origin(areas, j);
        let a = areas[i];
        assert(a.in_bounds());
        law_aligned_up(a.start_address as int, PAGE_SIZE as int);
        law_aligned_down(a.start_address + a.size, PAGE_SIZE as int);
    }
}

/// Where each region of a memory map comes from: the areas are gone through in order, each
/// region is all whole pages of its area, and its kind follows the number of the type of that
/// area. An area is passed over only if it holds no whole page or comes after the
/// [`MAX_REGIONS`]th region.
pub proof fn law_origins(areas: Seq<MemoryArea>) -> (from: Seq<int>)
    requires
        map_in_bounds(areas),
    ensures
        from.len() == regions_of(areas).len(),
        forall|i: int, j: int| 0 <= i < j < from.len() ==> #[trigger] from[i] < #[trigger] from[j],
        forall|j: int|
            #![trigger from[j]]
            #![trigger regions_of(areas)[j]]
            0 <= j < from.len() ==> {
                let r = regions_of(areas)[j];
                let a = areas[from[j]];
                &&& 0 <= from[j] < areas.len()
                &&& a.start_address <= r.base < a.start_address + 4096
                &&& r.base % 4096 == 0
                &&& r.length > 0
                &&& r.length % 4096 == 0
                &&& r.base + r.length <= a.start_address + a.size < r.base + r.length + 4096
                &&& r.kind == MemoryRegionKind::Usable <==> a.typ == 1
                &&& r.kind == MemoryRegionKind::AcpiReclaimable <==> a.typ == 3
                &&& r.kind == MemoryRegionKind::Reserved <==> a.typ != 1 && a.typ != 3
            },
        forall|i: int, page: int|
            0 <= i < areas.len() && page % 4096 == 0 && #[trigger] holds_page(areas[i], page)
                ==> from.contains(i) || from.len() == 128 && from.last() < i,
{
    let kept = with_pages(areas);
    let n = regions_of(areas).len();
    let from = Seq::new(n, |j: int| origin(areas, j));
    assert forall|j: int| 0 <= j < kept.len() implies #[trigger] is_origin(
        areas,
        j,
        origin(areas, j),
    ) by {
        let i = lemma_origin(areas, j);
        assert(is_origin(areas, j, i));
    }
    assert forall|i: int, j: int| 0 <= i < j < from.len() implies #[trigger] from[i]
        < #[trigger] from[j] by {
        assert(is_origin(areas, i, origin(areas, i)) && is_origin(areas, j, origin(areas, j)));
        if from[j] <= from[i] {
            assert(areas.take(from[i]).take(from[j]) =~= areas.take(from[j]));
            lemma_prefix(areas.take(from[i]), from[j]);
        }
    }
    assert forall|j: int|
        #![trigger from[j]]
        #![trigger regions_of(areas)[j]]
        0 <= j < from.len() implies {
        let r = regions_of(areas)[j];
        let a = areas[from[j]];
        &&& 0 <= from[j] < areas.len()
        &&& a.start_address <= r.base < a.start_address + 4096
        &&& r.base % 4096 == 0
        &&& r.length > 0
        &&& r.length % 4096 == 0
        &&& r.base + r.length <= a.start_address + a.size < r.base + r.length + 4096
        &&& r.kind == MemoryRegionKind::Usable <==> a.typ == 1
        &&& r.kind == MemoryRegionKind::AcpiReclaimable <==> a.typ == 3
        &&& r.kind == MemoryRegionKind::Reserved <==> a.typ != 1 && a.typ != 3
    } by {
        assert(is_origin(areas, j, origin(areas, j)));
        let a = areas[from[j]];
        assert(a.in_bounds());
        law_aligned_up(a.start_address as int, PAGE_SIZE as int);
        law_aligned_down(a.start_address + a.size, PAGE_SIZE as int);
    }
    assert forall|i: int, page: int|
        0 <= i < areas.len() && page % 4096 == 0 && #[trigger] holds_page(
            areas[i],
            page,
        ) implies from.contains(i) || from.len() == 128 && from.last() < i by {
        let a = areas[i];
        law_aligned_up(a.start_address as int, PAGE_SIZE as int);
        law_aligned_down(a.start_address + a.size, PAGE_SIZE as int);
        assert(a.has_pages());
        let j = with_pages(areas.take(i)).len() as int;
        lemma_one_more(areas, i);
        lemma_prefix(areas, i + 1);
        assert(with_pages(areas.take(i + 1))[j] == a);
        assert(is_origin(areas, j, i));
        if j < n {
            assert(is_origin(areas, j, from[j]));
            lemma_origin_unique(areas, j, i, from[j]);
            assert(from[j] == i);
        } else {
            let last = n - 1;
            assert(is_origin(areas, last, from[last]));
            if i <= from[last] {
                assert(areas.take(from[last]).take(i) =~= areas.take(i));
                lemma_prefix(areas.take(from[last]), i);
            }
        }
    }
    from
}

/// The page at `page` lies in the area.
pub open spec fn holds_page(a: MemoryArea, page: int) -> bool {
    a.start_address <= page && page + 4096 <= a.start_address + a.size
}

/// The `j`th area with pages stands at `i` in the map.
spec fn is_origin(areas: Seq<MemoryArea>, j: int, i: int) -> bool {
    &&& 0 <= i < areas.len()
    &&& areas[i] == with_pages(areas)[j]
    &&& areas[i].has_pages()
    &&& with_pages(areas.take(i)).len() == j
}

/// Where the `j`th area with pages stands in the map.
spec fn origin(areas: Seq<MemoryArea>, j: int) -> int {
    choose|i: int| is_origin(areas, j, i)
}

proof fn lemma_origin_unique(areas: Seq<MemoryArea>, j: int, i: int, k: int)
    requires
        is_origin(areas, j, i),
        is_origin(areas, j, k),
    ensures
        i == k,
{
    if i < k {
        lemma_one_more(areas, i);
        assert(areas.take(k).take(i + 1) =~= areas.take(i + 1));
        lemma_prefix(areas.take(k), i + 1);
    }
    if k < i {
        lemma_one_more(areas, k);
        assert(areas.take(i).take(k + 1) =~= areas.take(k + 1));
        lemma_prefix(areas.take(i), k + 1);
    }
}

/// Where the `j`th area with pages stands in the map, and that few came before it.
proof fn lemma_origin(areas: Seq<MemoryArea>, j: int) -> (i: int)
    requires
        0 <= j < with_pages(areas).len(),
    ensures
        0 <= i < areas.len(),
        areas[i] == with_pages(areas)[j],
        areas[i].has_pages(),
        with_pages(areas.take(i)).len() == j,
    decreases areas.len(),
{
    reveal(Seq::filter);
    let rest = areas.drop_last();
    if j < with_pages(rest).len() {
        let i = lemma_origin(rest, j);
        assert(rest.take(i) =~= areas.take(i));
        i
    } else {
        assert(areas.take(areas.len() - 1) =~= rest);
        areas.len() - 1
    }
}

/// A section lies where it was linked for, less the offset that physical memory is mapped at;
/// one that was linked for below that offset counts as at the very start. It takes up memory
/// exactly if bit 1 of its flags is set.
pub proof fn law_section(s: ElfSection)
    ensures
        0 <= section_base(s) <= s.start_address,
        s.start_address >= 0xffff_ffff_8000_0000 ==> section_base(s) + 0xffff_ffff_8000_0000
            == s.start_address,
        s.start_address < 0xffff_ffff_8000_0000 ==> section_base(s) == 0,
        allocated(s) <==> s.flags / 2 % 2 == 1,
{
    let f = s.flags;
    assert((f & 2 != 0) == (f / 2 % 2 == 1)) by (bit_vector);
}

/// A memory map is in bounds if every area ends a page below the end of the addresses.
pub proof fn law_map_in_bounds(areas: Seq<MemoryArea>)
    requires
        forall|i: int|
            0 <= i < areas.len() ==> (#[trigger] areas[i]).start_address + areas[i].size
                <= 0xffff_ffff_ffff_f000,
    ensures
        map_in_bounds(areas),
{
}

/// Where things lie when the kernel is entered: the image from 1 MiB on, the heap behind it,
/// and both in the two mebibytes that are mapped.
pub proof fn law_layout()
    ensures
        KERNEL_PHYS_BASE == 0x10_0000,
        HEAP_START_PHYS == 0x16_0000,
        BOOT_MAPPED_PHYS == 0x20_0000,
        HHDM_OFFSET == 0xffff_ffff_8000_0000,
        MAX_REGIONS == 128,
        KERNEL_PHYS_BASE < HEAP_START_PHYS < BOOT_MAPPED_PHYS,
{
}

/// There is one image base. No section that takes up memory lies below it and one lies there;
/// where none takes up memory it is at 1 MiB.
pub proof fn law_image_base(sections: Seq<ElfSection>, base: int, other: int, i: int)
    requires
        is_image_base(sections, base),
    ensures
        is_image_base(sections, other) ==> other == base,
        0 <= i < sections.len() && sections[i].flags / 2 % 2 == 1 ==> base <= section_base(
            sections[i],
        ),
        (exists|j: int| 0 <= j < sections.len() && #[trigger] allocated(sections[j])) ==> exists|
            j: int,
        |
            0 <= j < sections.len() && #[trigger] allocated(sections[j]) && section_base(sections[j])
                == base,
        (forall|j: int| 0 <= j < sections.len() ==> !#[trigger] allocated(sections[j])) ==> base
            == 0x10_0000,
{
    if 0 <= i < sections.len() {
        law_section(sections[i]);
        assert(allocated(sections[i]) == (sections[i].flags / 2 % 2 == 1));
    }
    if is_image_base(sections, other) && exists|j: int|
        0 <= j < sections.len() && #[trigger] allocated(sections[j]) {
        let j = choose|j: int|
            0 <= j < sections.len() && #[trigger] allocated(sections[j]) && section_base(sections[j])
                == base;
        let k = choose|k: int|
            0 <= k < sections.len() && #[trigger] allocated(sections[k]) && section_base(sections[k])
                == other;
        assert(allocated(sections[j]) && allocated(sections[k]));
    }
}

/// The regions are those of the memory map, and none without one.
pub proof fn law_info_regions(info: BootInfo)
    ensures
        info.memory_map_tag matches Some(areas) ==> info_regions(info) == regions_of(areas@),
        info.memory_map_tag is None ==> info_regions(info).len() == 0,
        info.memory_map_tag is None ==> info_in_bounds(info),
        info.memory_map_tag matches Some(areas) ==> (info_in_bounds(info) <==> map_in_bounds(
            areas@,
        )),
{
}

/// A region lies in an area and is of the kind that the number of the type of the area says.
pub open spec fn comes_from(r: MemoryRegion, a: MemoryArea) -> bool {
    &&& a.start_address <= r.base
    &&& r.base + r.length <= a.start_address + a.size
    &&& r.kind == MemoryRegionKind::Usable <==> a.typ == 1
    &&& r.kind == MemoryRegionKind::AcpiReclaimable <==> a.typ == 3
    &&& r.kind == MemoryRegionKind::Reserved <==> a.typ != 1 && a.typ != 3
}

/// Every region that is found in a memory map lies in an area of it and is of the kind that the
/// number of the type of that area says.
pub proof fn law_found(areas: &Vec<MemoryArea>, r: Vec<MemoryRegion>, j: int)
    requires
        map_in_bounds(areas@),
        call_ensures(regions, (areas,), r),
        0 <= j < r@.len(),
    ensures
        exists|k: int| 0 <= k < areas@.len() && comes_from(r@[j], #[trigger] areas@[k]),
{
    let from = law_origins(areas@);
    let k = from[j];
    assert(regions_of(areas@)[j] == r@[j]);
    assert(comes_from(r@[j], areas@[k]));
}

/// Every page of an area among the first [`MAX_REGIONS`] lies in a region that is found.
pub proof fn law_all_found(areas: &Vec<MemoryArea>, r: Vec<MemoryRegion>, i: int, page: int)
    requires
        map_in_bounds(areas@),
        call_ensures(regions, (areas,), r),
        0 <= i < areas@.len(),
        i < 128,
        page % 4096 == 0,
        holds_page(areas@[i], page),
    ensures
        exists|j: int|
            0 <= j < r@.len() && (#[trigger] r@[j]).base <= page && page + 4096 <= r@[j].base
                + r@[j].length && comes_from(r@[j], areas@[i]),
{
    let from = law_origins(areas@);
    assert(r@ == regions_of(areas@));
    assert(from.contains(i)) by {
        lemma_rising(from, 127);
    }
    let j = choose|j: int| 0 <= j < from.len() && from[j] == i;
    assert(regions_of(areas@)[j] == r@[j]);
    assert(comes_from(r@[j], areas@[i]));
}

/// Rising numbers from zero on are at least as large as their places.
proof fn lemma_rising(from: Seq<int>, n: int)
    requires
        forall|i: int, j: int| 0 <= i < j < from.len() ==> #[trigger] from[i] < #[trigger] from[j],
        forall|j: int| 0 <= j < from.len() ==> 0 <= #[trigger] from[j],
    ensures
        0 <= n < from.len() ==> from[n] >= n,
    decreases n,
{
    if 0 < n < from.len() {
        lemma_rising(from, n - 1);
        assert(from[n - 1] < from[n]);
    }
}

} // verus!
