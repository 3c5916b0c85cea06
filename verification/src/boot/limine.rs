//! The Limine protocol.
//!
//! The bootloader maps all of physical memory and answers requests; each answer may be
//! missing.

use crate::framework::{KernelBootInfo, MemoryRegion, MemoryRegionKind};
use vstd::prelude::*;

verus! {

/// Free for any use.
pub const MEMMAP_USABLE: u64 = 0;

/// Free once the firmware tables were read.
pub const MEMMAP_ACPI_RECLAIMABLE: u64 = 2;

/// Free once the bootloader's data is no longer needed.
pub const MEMMAP_BOOTLOADER_RECLAIMABLE: u64 = 5;

/// The kernel image and its modules.
pub const MEMMAP_EXECUTABLE_AND_MODULES: u64 = 6;

/// A frame buffer.
pub const MEMMAP_FRAMEBUFFER: u64 = 7;

/// Entries that are kept of a memory map.
pub const MAX_ENTRIES: usize = 256;

/// An entry of the memory map.
#[derive(Debug, Clone, Copy, PartialEq, Eq, Structural)]
pub struct MemmapEntry {
    /// First address.
    pub base: u64,
    /// Bytes.
    pub length: u64,
    /// Number of the type of the entry.
    pub type_: u64,
}

/// What the bootloader answered.
pub struct Responses {
    /// It speaks the revision that was asked for.
    pub revision_supported: bool,
    /// Where physical memory is mapped.
    pub hhdm_offset: Option<u64>,
    /// Physical address of the kernel image.
    pub physical_base: Option<u64>,
    /// The memory map.
    pub memmap: Option<Vec<MemmapEntry>>,
}

/// What an entry with a type number is for.
pub open spec fn kind_of(type_: u64) -> MemoryRegionKind {
    if type_ == MEMMAP_USABLE {
        MemoryRegionKind::Usable
    } else if type_ == MEMMAP_ACPI_RECLAIMABLE {
        MemoryRegionKind::AcpiReclaimable
    } else if type_ == MEMMAP_BOOTLOADER_RECLAIMABLE {
        MemoryRegionKind::BootloaderReclaimable
    } else if type_ == MEMMAP_EXECUTABLE_AND_MODULES {
        MemoryRegionKind::KernelAndModules
    } else if type_ == MEMMAP_FRAMEBUFFER {
        MemoryRegionKind::Framebuffer
    } else {
        MemoryRegionKind::Reserved
    }
}

/// The region of an entry.
pub open spec fn region_of(e: MemmapEntry) -> MemoryRegion {
    MemoryRegion { base: e.base, length: e.length, kind: kind_of(e.type_) }
}

/// The regions of a memory map: one per entry, in order, up to [`MAX_ENTRIES`] of them.
pub open spec fn regions_of(entries: Seq<MemmapEntry>) -> Seq<MemoryRegion> {
    Seq::new(
        if entries.len() <= MAX_ENTRIES {
            entries.len()
        } else {
            MAX_ENTRIES as nat
        },
        |i: int| region_of(entries[i]),
    )
}

/// The regions of a memory map.
pub fn regions(entries: &Vec<MemmapEntry>) -> (r: Vec<MemoryRegion>)
    ensures
        r@ == regions_of(entries@),
{
    let count: usize = if entries.len() < MAX_ENTRIES {
        entries.len()
    } else {
        MAX_ENTRIES
    };
    let mut r: Vec<MemoryRegion> = Vec::new();
    let mut i: usize = 0;
    while i < count
        invariant
            i <= count,
            count <= entries@.len(),
            r@ =~= Seq::new(i as nat, |j: int| region_of(entries@[j])),
        decreases count - i,
    {
        let entry: MemmapEntry = entries[i];
        let kind: MemoryRegionKind = match entry.type_ {
            MEMMAP_USABLE => MemoryRegionKind::Usable,
            MEMMAP_ACPI_RECLAIMABLE => MemoryRegionKind::AcpiReclaimable,
            MEMMAP_BOOTLOADER_RECLAIMABLE => MemoryRegionKind::BootloaderReclaimable,
            MEMMAP_EXECUTABLE_AND_MODULES => MemoryRegionKind::KernelAndModules,
            MEMMAP_FRAMEBUFFER => MemoryRegionKind::Framebuffer,
            _ => MemoryRegionKind::Reserved,
        };
        r.push(MemoryRegion { base: entry.base, length: entry.length, kind });
        i = i + 1;
    }
    assert(r@ =~= regions_of(entries@));
    r
}

/// The first thing that is missing of the answers, in the order in which they are needed.
pub open spec fn missing(r: Responses) -> Option<Seq<char>> {
    if !r.revision_supported {
        Some("Limine: unsupported base revision"@)
    } else if r.hhdm_offset is None {
        Some("Limine: no HHDM response"@)
    } else if r.physical_base is None {
        Some("Limine: no executable address response"@)
    } else if r.memmap is None {
        Some("Limine: no memory map response"@)
    } else {
        None
    }
}

/// What the kernel is told, from the answers of the bootloader; or what is missing.
pub fn start(responses: &Responses) -> (r: Result<KernelBootInfo, &'static str>)
    ensures
        match r {
            Ok(k) => missing(*responses) is None && k.memory_regions@ == regions_of(
                responses.memmap->0@,
            ) && Some(k.hhdm_offset) == responses.hhdm_offset && Some(k.kernel_phys_base)
                == responses.physical_base && responses.revision_supported && responses.memmap is Some,
            Err(e) => missing(*responses) == Some(e@),
        },
{
    if !responses.revision_supported {
        return Err("Limine: unsupported base revision");
    }
    let hhdm_offset: u64 = match responses.hhdm_offset {
        Some(offset) => offset,
        None => {
            return Err("Limine: no HHDM response");
        },
    };
    let kernel_phys_base: u64 = match responses.physical_base {
        Some(base) => base,
        None => {
            return Err("Limine: no executable address response");
        },
    };
    match &responses.memmap {
        Some(entries) => {
            let memory_regions: Vec<MemoryRegion> = regions(entries);
            Ok(KernelBootInfo { memory_regions, hhdm_offset, kernel_phys_base })
        },
        None => Err("Limine: no memory map response"),
    }
}

/// Region `i` is entry `i`, byte for byte, and its kind follows the type number of the entry;
/// every entry has its region but those beyond the first 256.
pub proof fn law_regions(entries: Seq<MemmapEntry>)
    ensures
        entries.len() <= 256 ==> regions_of(entries).len() == entries.len(),
        entries.len() > 256 ==> regions_of(entries).len() == 256,
        forall|i: int|
            #![trigger regions_of(entries)[i]]
            0 <= i < regions_of(entries).len() ==> {
                let r = regions_of(entries)[i];
                let t = entries[i].type_;
                &&& r.base == entries[i].base
                &&& r.length == entries[i].length
                &&& r.kind == MemoryRegionKind::Usable <==> t == 0
                &&& r.kind == MemoryRegionKind::AcpiReclaimable <==> t == 2
                &&& r.kind == MemoryRegionKind::BootloaderReclaimable <==> t == 5
                &&& r.kind == MemoryRegionKind::KernelAndModules <==> t == 6
                &&& r.kind == MemoryRegionKind::Framebuffer <==> t == 7
                &&& r.kind == MemoryRegionKind::Reserved <==> t == 1 || t == 3 || t == 4 || t > 7
            },
{
}

/// Something is missing exactly if one of the four answers is, and what is said depends on no
/// answer behind the first one that is missing.
pub proof fn law_missing(r: Responses, s: Responses)
    ensures
        missing(r) is None <==> r.revision_supported && r.hhdm_offset is Some && r.physical_base
            is Some && r.memmap is Some,
        !r.revision_supported && !s.revision_supported ==> missing(r) == missing(s),
        r.revision_supported && s.revision_supported && r.hhdm_offset is None && s.hhdm_offset
            is None ==> missing(r) == missing(s),
        r.revision_supported && s.revision_supported && r.hhdm_offset is Some && s.hhdm_offset
            is Some && r.physical_base is None && s.physical_base is None ==> missing(r) == missing(
            s,
        ),
{
}

/// The kernel is told of its memory exactly if the bootloader gave every answer, and then of
/// what it answered.
pub proof fn law_start(responses: &Responses, r: Result<KernelBootInfo, &'static str>)
    requires
        call_ensures(start, (responses,), r),
    ensures
        r is Ok <==> responses.revision_supported && responses.hhdm_offset is Some
            && responses.physical_base is Some && responses.memmap is Some,
        r is Ok ==> Some(r->Ok_0.hhdm_offset) == responses.hhdm_offset,
        r is Ok ==> Some(r->Ok_0.kernel_phys_base) == responses.physical_base,
        r is Ok && responses.memmap->0@.len() <= 256 ==> r->Ok_0.memory_regions@.len()
            == responses.memmap->0@.len(),
{
    law_missing(*responses, *responses);
    if r is Ok {
        law_regions(responses.memmap->0@);
    }
}

} // verus!
