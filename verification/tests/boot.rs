use crusty_os::align::{align_down, align_up};
use crusty_os::boot::heap::{allocator_init, regions_orderly, TLSF_POOL_ORDER};
use crusty_os::boot::info::{
    BootInfo, CommandLine, ElfSection, Framebuffer, FramebufferTag, MemoryArea, Rsdp,
};
use crusty_os::boot::limine::{self, MemmapEntry, Responses};
use crusty_os::boot::multiboot2::{
    self, image_base, init, kernel_end_phys, kernel_main, kernel_main_with_sections,
    parse_boot_info, Once, BOOT_MAPPED_PHYS, HHDM_OFFSET,
};
use crusty_os::boot::paging::{
    init_heap, init_heap_barnacle, HeapAction, HeapEvent, HeapInit, MapToError,
};
use crusty_os::boot::task::{first_task, kernel_main_post_heap, TaskControlBlock};
use crusty_os::buddy::BuddyAllocator;
use crusty_os::framework::{KernelBootInfo, MemoryRegion, MemoryRegionKind, PAGE_SIZE};
use crusty_os::memory::Memory;
use crusty_os::slab::{fits, SlabCache};
use crusty_os::startup::{self, Stage};
use crusty_os::tlsf::TlsfAllocator;
use crusty_os::vga;

fn region(base: u64, length: u64, kind: MemoryRegionKind) -> MemoryRegion {
    MemoryRegion { base, length, kind }
}

fn area(start_address: u64, size: u64, typ: u32) -> MemoryArea {
    MemoryArea { start_address, size, typ }
}

fn info(areas: Option<Vec<MemoryArea>>) -> BootInfo {
    BootInfo {
        memory_map_tag: areas,
        command_line_tag: None,
        framebuffer_tag: None,
        rsdp_v1_tag: None,
        rsdp_v2_tag: None,
        elf_sections_tag: None,
        start: 0x1000,
        total_size: 0x80,
    }
}

#[test]
fn addresses_are_rounded() {
    assert_eq!(align_up(0, 4096), 0);
    assert_eq!(align_up(1, 4096), 4096);
    assert_eq!(align_up(4096, 4096), 4096);
    assert_eq!(align_up(0x1234_5679, 16), 0x1234_5680);
    assert_eq!(align_down(4095, 4096), 0);
    assert_eq!(align_down(u64::MAX, 4096), u64::MAX - 4095);
    assert_eq!(align_down(7, 1), 7);
    assert_eq!(kernel_end_phys(0x10_0001), 0x10_1000);
    assert_eq!(kernel_end_phys(0x10_1000), 0x10_1000);
}

#[test]
fn addresses_that_fit_together() {
    assert_eq!(HHDM_OFFSET, 0xffff_ff80_0000_0000 + 510 * (1 << 30));
    let (start, size) = init_heap_barnacle();
    assert_eq!(start, HHDM_OFFSET + multiboot2::HEAP_START_PHYS);
    assert!(start + size <= HHDM_OFFSET + BOOT_MAPPED_PHYS);
}

#[test]
fn areas_are_trimmed_to_whole_pages() {
    let areas = vec![
        area(0, 0x9_fc00, 1),
        area(0x9_fc00, 0x400, 2),
        area(0x10_0001, 0x2fff, 1),
        area(0x20_0000, 0x1000, 3),
        area(0x30_0000, 0x1000, 4),
        area(0x40_0000, 0x1000, 5),
        area(0x50_0000, 0x1000, 77),
        area(0x60_0000, 0, 1),
    ];
    assert_eq!(
        multiboot2::regions(&areas),
        vec![
            region(0, 0x9_f000, MemoryRegionKind::Usable),
            region(0x10_1000, 0x2000, MemoryRegionKind::Usable),
            region(0x20_0000, 0x1000, MemoryRegionKind::AcpiReclaimable),
            region(0x30_0000, 0x1000, MemoryRegionKind::Reserved),
            region(0x40_0000, 0x1000, MemoryRegionKind::Reserved),
            region(0x50_0000, 0x1000, MemoryRegionKind::Reserved),
        ]
    );
}

#[test]
fn only_so_many_regions_are_kept() {
    let mut areas: Vec<MemoryArea> = (0..200).map(|i| area(i * 0x2000, 0x1000, 1)).collect();
    // nothing behind the last region that is kept is looked at
    areas.push(area(u64::MAX, u64::MAX, 1));
    let r = multiboot2::regions(&areas);
    assert_eq!(r.len(), 128);
    assert_eq!(r[127].base, 127 * 0x2000);
}

#[test]
fn the_image_lies_where_its_sections_say() {
    let s = |flags, start_address| ElfSection { flags, start_address };
    assert_eq!(image_base(None), 0x10_0000);
    assert_eq!(image_base(Some(&vec![])), 0x10_0000);
    assert_eq!(image_base(Some(&vec![s(1, HHDM_OFFSET)])), 0x10_0000);
    let sections =
        vec![s(0, HHDM_OFFSET), s(2, HHDM_OFFSET + 0x30_0000), s(6, HHDM_OFFSET + 0x20_0000)];
    assert_eq!(image_base(Some(&sections)), 0x20_0000);
    assert_eq!(image_base(Some(&vec![s(2, 0x10_0000)])), 0);
}

#[test]
fn what_the_kernel_is_told() {
    let i = info(Some(vec![area(0x10_0000, 0x10_0000, 1)]));
    let k = kernel_main(&i);
    assert_eq!(k.memory_regions, vec![region(0x10_0000, 0x10_0000, MemoryRegionKind::Usable)]);
    assert_eq!(k.hhdm_offset, 0xffff_ffff_8000_0000);
    assert_eq!(k.kernel_phys_base, 0x10_0000);
    assert_eq!(k.phys_to_virt(0xb8000), 0xffff_ffff_800b_8000);
    assert!(kernel_main(&info(None)).memory_regions.is_empty());
}

#[test]
fn boot_information_is_parsed_once() {
    let i = info(Some(vec![area(0x10_0000, 0x10_0000, 1)]));
    let mut once = Once::new();
    assert_eq!(
        parse_boot_info(&mut once, None).err(),
        Some("barnacle: invalid Multiboot2 information structure")
    );
    assert_eq!(
        parse_boot_info(&mut once, Some(&i)).err(),
        Some("barnacle::parse_boot_info called more than once")
    );
    let mut once = Once::new();
    assert_eq!(parse_boot_info(&mut once, Some(&i)).unwrap().memory_regions.len(), 1);
    let mut once = Once::new();
    assert!(init(&mut once, Some(info(None))).is_ok());
    assert_eq!(
        init(&mut once, Some(info(None))).err(),
        Some("barnacle::init called more than once")
    );
    let mut once = Once::new();
    assert_eq!(
        init(&mut once, None).err(),
        Some("barnacle: invalid Multiboot2 information structure")
    );
}

#[test]
fn sections_and_a_map_are_required() {
    assert_eq!(
        kernel_main_with_sections(None).err(),
        Some("multiboot2: malformed boot information structure")
    );
    assert_eq!(
        kernel_main_with_sections(Some(&info(None))).err(),
        Some("multiboot2: no memory map tag — ensure GRUB passes --memory-map")
    );
    let mut i = info(Some(vec![area(0x10_0000, 0x10_0000, 1)]));
    i.elf_sections_tag = Some(vec![ElfSection { flags: 2, start_address: HHDM_OFFSET + 0x5000 }]);
    let k = kernel_main_with_sections(Some(&i)).unwrap();
    assert_eq!(k.kernel_phys_base, 0x5000);
    assert_eq!(k.memory_regions.len(), 1);
}

#[test]
fn tags_are_handed_on() {
    let f = Framebuffer { address: 0xe000_0000, pitch: 4096, width: 1024, height: 768, bpp: 32 };
    let r = Rsdp { revision: 2, address: 0x7fe0 };
    let mut i = info(None);
    assert!(i.memory_map().is_none());
    assert_eq!(i.command_line(), None);
    assert_eq!(i.framebuffer(), None);
    i.command_line_tag = Some(CommandLine::Text(String::from("quiet")));
    i.framebuffer_tag = Some(FramebufferTag::Known(f));
    i.rsdp_v1_tag = None;
    i.rsdp_v2_tag = Some(r);
    assert_eq!(i.command_line(), Some("quiet"));
    assert_eq!(i.framebuffer(), Some(f));
    assert_eq!(i.rsdp_v1(), None);
    assert_eq!(i.rsdp_v2(), Some(r));
    assert!(i.elf_sections().is_none());
    i.command_line_tag = Some(CommandLine::Malformed);
    i.framebuffer_tag = Some(FramebufferTag::UnknownType);
    assert_eq!(i.command_line(), None);
    assert_eq!(i.framebuffer(), None);
    assert_eq!(i.start_address(), 0x1000);
    assert_eq!(i.end_address(), 0x1080);
}

#[test]
fn limine_entries_become_regions() {
    let e = |type_| MemmapEntry { base: 0x1000 * type_, length: 10, type_ };
    let entries: Vec<MemmapEntry> = (0..9).map(e).collect();
    let kinds: Vec<MemoryRegionKind> = limine::regions(&entries).iter().map(|r| r.kind).collect();
    assert_eq!(
        kinds,
        vec![
            MemoryRegionKind::Usable,
            MemoryRegionKind::Reserved,
            MemoryRegionKind::AcpiReclaimable,
            MemoryRegionKind::Reserved,
            MemoryRegionKind::Reserved,
            MemoryRegionKind::BootloaderReclaimable,
            MemoryRegionKind::KernelAndModules,
            MemoryRegionKind::Framebuffer,
            MemoryRegionKind::Reserved,
        ]
    );
    let many: Vec<MemmapEntry> = (0..300).map(|_| e(0)).collect();
    assert_eq!(limine::regions(&many).len(), 256);
}

#[test]
fn limine_answers_may_be_missing() {
    let all = || Responses {
        revision_supported: true,
        hhdm_offset: Some(0xffff_8000_0000_0000),
        physical_base: Some(0x20_0000),
        memmap: Some(vec![MemmapEntry { base: 0x1000, length: 0x1000, type_: 0 }]),
    };
    let k = limine::start(&all()).unwrap();
    assert_eq!(k.hhdm_offset, 0xffff_8000_0000_0000);
    assert_eq!(k.kernel_phys_base, 0x20_0000);
    assert_eq!(k.memory_regions, vec![region(0x1000, 0x1000, MemoryRegionKind::Usable)]);
    let mut r = all();
    r.memmap = None;
    assert_eq!(limine::start(&r).err(), Some("Limine: no memory map response"));
    r.physical_base = None;
    assert_eq!(limine::start(&r).err(), Some("Limine: no executable address response"));
    r.hhdm_offset = None;
    assert_eq!(limine::start(&r).err(), Some("Limine: no HHDM response"));
    r.revision_supported = false;
    assert_eq!(limine::start(&r).err(), Some("Limine: unsupported base revision"));
}

#[test]
fn regions_by_kind() {
    let k = KernelBootInfo {
        memory_regions: vec![
            region(0, 0x1000, MemoryRegionKind::Usable),
            region(0x1000, 0x1000, MemoryRegionKind::Mmio),
            region(0x2000, 0x2fff, MemoryRegionKind::Usable),
        ],
        hhdm_offset: 0,
        kernel_phys_base: 0,
    };
    let usable = k.regions_of_kind(MemoryRegionKind::Usable);
    assert_eq!(usable, vec![k.memory_regions[0], k.memory_regions[2]]);
    assert_eq!(k.memory_regions[2].end(), 0x4fff);
    assert_eq!(k.memory_regions[2].page_count(), 2);
    assert!(k.regions_of_kind(MemoryRegionKind::Framebuffer).is_empty());
}

fn booted(regions: Vec<MemoryRegion>, limit: Option<u64>, ram: u64) -> (BuddyAllocator, TlsfAllocator, Memory) {
    let offset = 0xffff_ff00_0000_0000;
    let mut mem = Memory::new(offset + 0x1000, vec![0u8; (ram - 0x1000) as usize]);
    let mut buddy = BuddyAllocator::new();
    let mut heap = TlsfAllocator::new();
    let k = KernelBootInfo { memory_regions: regions, hhdm_offset: offset, kernel_phys_base: 0 };
    let usable = k.regions_of_kind(MemoryRegionKind::Usable);
    assert!(regions_orderly(&usable, offset, limit, &mem));
    allocator_init(&k, limit, &mut buddy, &mut heap, &mut mem).unwrap();
    (buddy, heap, mem)
}

#[test]
fn the_heap_is_set_up_from_the_map() {
    let (buddy, mut heap, mut mem) = booted(
        vec![
            region(0x1000, 0x1000, MemoryRegionKind::Usable),
            region(0x2000, 0x1000, MemoryRegionKind::Reserved),
            region(0x10_1000, 0x10_0000, MemoryRegionKind::Usable),
        ],
        None,
        0x30_0000,
    );
    let s = buddy.stats();
    assert_eq!(s.total_bytes, 0x10_1000);
    assert_eq!(s.used_bytes, PAGE_SIZE << TLSF_POOL_ORDER);
    let p = heap.allocate(&mut mem, 1000, 8);
    assert_ne!(p, 0);
    heap.dealloc(&mut mem, p);
}

#[test]
fn too_little_memory_for_a_heap() {
    let mut mem = Memory::new(0x1000, vec![0u8; 0x8000]);
    let mut buddy = BuddyAllocator::new();
    let mut heap = TlsfAllocator::new();
    let k = KernelBootInfo {
        memory_regions: vec![region(0x1000, 0x8000, MemoryRegionKind::Usable)],
        hhdm_offset: 0,
        kernel_phys_base: 0,
    };
    assert_eq!(
        allocator_init(&k, None, &mut buddy, &mut heap, &mut mem),
        Err("TLSF init: buddy OOM — reduce buddy_order or add more regions")
    );
    assert_eq!(buddy.stats().free_bytes, 0x8000);
}

#[test]
fn orderly_regions() {
    let mem = Memory::new(0x1000, vec![0u8; 0x10000]);
    let r = |base, length| region(base, length, MemoryRegionKind::Usable);
    assert!(regions_orderly(&vec![], 0, None, &mem));
    assert!(regions_orderly(&vec![r(0x1000, 0x1000), r(0x2000, 0x1800)], 0, None, &mem));
    assert!(!regions_orderly(&vec![r(0x2000, 0x1000), r(0x1000, 0x1000)], 0, None, &mem));
    assert!(regions_orderly(&vec![r(0x1000, 0x1001), r(0x2000, 0x1000)], 0, None, &mem));
    assert!(!regions_orderly(&vec![r(0x1000, 0x2000), r(0x2000, 0x1000)], 0, None, &mem));
    // only the first has to come first
    let mixed = vec![r(0x1000, 0x1000), r(0x4000, 0x1000), r(0x2000, 0x2000)];
    assert!(regions_orderly(&mixed, 0, None, &mem));
    assert!(!regions_orderly(&vec![r(0x1800, 0x1000)], 0, None, &mem));
    assert!(!regions_orderly(&vec![r(0x1000, 0x11000)], 0, None, &mem));
    assert!(!regions_orderly(&vec![r(0x1000, 0x1000)], 1, None, &mem));
    assert!(!regions_orderly(&vec![r(0x1000, 0x1000)], u64::MAX - 0xfff, None, &mem));
    // what is not mapped may lie anywhere
    assert!(regions_orderly(&vec![r(0x1000, 0x100_0000)], 0, Some(0x2000), &mem));
    assert!(regions_orderly(&vec![r(0x1000, 0x1000), r(0x8000_0000, 1)], 0, Some(0x2000), &mem));
    assert!(regions_orderly(&vec![r(0, 0x1000)], 0, Some(0), &mem));
    assert!(!regions_orderly(&vec![r(0, 0x1000)], 0, None, &mem));
    let high_first = vec![r(0x8000_0000, 0x1000), r(0x1000, 0x1000)];
    assert!(regions_orderly(&high_first, 0, Some(0x2000), &mem));
    let large = Memory::new(0x1000, vec![0u8; 2177 * 0x1000]);
    assert!(regions_orderly(&vec![r(0x1000, 2176 * 0x1000)], 0, None, &large));
    assert!(!regions_orderly(&vec![r(0x1000, 2177 * 0x1000)], 0, None, &large));
}

#[test]
fn maps_in_and_out_of_bounds() {
    assert!(multiboot2::map_fits(&vec![area(0, u64::MAX, 1)]));
    assert!(!multiboot2::map_fits(&vec![area(1, u64::MAX, 1)]));
    assert!(!multiboot2::map_fits(&vec![area(u64::MAX - 4094, 0, 1)]));
    assert!(multiboot2::map_fits(&vec![area(u64::MAX - 4095, 0, 1)]));
    let mut areas: Vec<MemoryArea> = (0..128).map(|i| area(i * 0x2000, 0x1000, 1)).collect();
    areas.push(area(u64::MAX, u64::MAX, 1));
    assert!(multiboot2::map_fits(&areas));
    areas[0].size = 0;
    assert!(!multiboot2::map_fits(&areas));
}

#[test]
fn memory_that_is_not_mapped_is_left_out() {
    let (buddy, _, _) = booted(
        vec![
            region(0x1000, 0x10_0000, MemoryRegionKind::Usable),
            region(0x1f_8000, 0x10_0000, MemoryRegionKind::Usable),
            region(0x40_0000, 0x10_0000, MemoryRegionKind::Usable),
        ],
        Some(BOOT_MAPPED_PHYS),
        0x20_0000,
    );
    assert_eq!(buddy.stats().total_bytes, 0x10_0000 + 0x8000);
    assert_eq!(buddy.stats().used_bytes, 0x10_0000);
}

#[test]
fn a_task_comes_and_goes() {
    let (mut buddy, mut heap, mut mem) = booted(
        vec![region(0x10_0000, 0x20_0000, MemoryRegionKind::Usable)],
        None,
        0x30_0000,
    );
    let kept = heap.allocate(&mut mem, 64, 8);
    mem.write_u64(kept, 7);
    let mut tasks: SlabCache<TaskControlBlock> = SlabCache::new(0);
    let used = buddy.stats().used_bytes;
    assert!(fits::<TaskControlBlock>(0) && !fits::<TaskControlBlock>(11) && !fits::<u8>(0));
    assert!(tasks.can_allocate(&buddy, &mem));
    let (pages, slots) = kernel_main_post_heap(&mut tasks, &mut buddy, &mut mem).unwrap();
    assert_eq!(pages.used_bytes, used + PAGE_SIZE);
    assert_eq!(slots.alloc_count, 1);
    assert_eq!(slots.used_bytes, 32);
    assert_eq!(tasks.stats().used_bytes, 0);
    assert_eq!(tasks.stats().dealloc_count, 1);
    assert_eq!(buddy.stats().used_bytes, used);
    assert_eq!(mem.read_u64(kept), 7);
}

#[test]
fn the_first_task_is_number_one() {
    let (mut buddy, _heap, mut mem) = booted(
        vec![region(0x10_0000, 0x20_0000, MemoryRegionKind::Usable)],
        None,
        0x30_0000,
    );
    let mut tasks: SlabCache<TaskControlBlock> = SlabCache::new(0);
    assert!(tasks.can_allocate(&buddy, &mem));
    let slot = first_task(&mut tasks, &mut buddy, &mut mem).unwrap();
    assert_eq!(mem.read_u64(slot), 1);
    assert_eq!(mem.read_u64(slot + 8), 0);
    assert_eq!(mem.read_u64(slot + 16), 0);
    assert_eq!(mem.read_u64(slot + 24), 0);
    assert_eq!(tasks.stats().alloc_count, 1);

    // The slab stays, as the first task is in it.
    assert!(tasks.can_allocate(&buddy, &mem));
    assert!(kernel_main_post_heap(&mut tasks, &mut buddy, &mut mem).is_ok());
    assert_eq!(mem.read_u64(slot), 1);
    assert_eq!(mem.read_u64(slot + 32) >> 16, 0);
    assert_eq!(mem.read_u64(slot + 40), 0);
}

#[test]
fn no_memory_no_task() {
    let mut mem = Memory::new(0x1000, vec![0u8; 0x1000]);
    let mut buddy = BuddyAllocator::new();
    let mut tasks: SlabCache<TaskControlBlock> = SlabCache::new(0);
    assert_eq!(
        kernel_main_post_heap(&mut tasks, &mut buddy, &mut mem).err(),
        Some("TCB slab OOM")
    );
}

fn map_all(h: &mut HeapInit) -> Vec<(u64, u64)> {
    let mut mapped = Vec::new();
    let mut frame = 0x20_0000;
    loop {
        match h.next() {
            HeapAction::AllocateFrame => {
                h.advance(HeapEvent::Frame(Some(frame))).unwrap();
            }
            HeapAction::MapTo { page, frame: f, flags } => {
                assert_eq!(f, frame);
                assert_eq!(flags, 3);
                mapped.push((page, f));
                frame += 0x1000;
                h.advance(HeapEvent::Mapped(Ok(()))).unwrap();
            }
            HeapAction::InitAllocator { start, size } => {
                assert_eq!((start, size), (0x4444_4444_0000, 100 * 1024));
                return mapped;
            }
        }
    }
}

#[test]
fn every_page_of_the_heap_is_mapped_once() {
    let mapped = map_all(&mut init_heap());
    assert_eq!(mapped.len(), 25);
    for (i, &(page, frame)) in mapped.iter().enumerate() {
        assert_eq!(page, 0x4444_4444_0000 + 0x1000 * i as u64);
        assert_eq!(frame, 0x20_0000 + 0x1000 * i as u64);
    }
    assert_eq!(init_heap_barnacle(), (0xffff_ffff_8016_0000, 0x8_0000));
}

#[test]
fn mapping_fails_where_frames_or_tables_do() {
    let mut h = init_heap();
    assert_eq!(h.advance(HeapEvent::Frame(None)), Err(MapToError::FrameAllocationFailed));
    assert_eq!(h.advance(HeapEvent::Frame(Some(0x1000))), Ok(()));
    for e in [
        MapToError::FrameAllocationFailed,
        MapToError::ParentEntryHugePage,
        MapToError::PageAlreadyMapped(0x5000),
    ] {
        assert_eq!(h.advance(HeapEvent::Mapped(Err(e))), Err(e));
    }
    assert_eq!(h.advance(HeapEvent::Mapped(Ok(()))), Ok(()));
}

#[test]
fn the_machine_is_brought_up_in_order() {
    let stages = startup::init();
    assert!(matches!(
        stages.as_slice(),
        [Stage::LoadSegments, Stage::LoadVectors, Stage::InitControllers, Stage::EnableInterrupts]
    ));
    let stages = startup::interrupts_init();
    assert!(matches!(
        stages.as_slice(),
        [Stage::LoadVectors, Stage::InitControllers, Stage::Print(s)]
            if s == "[interrupts] subsystem initialized\n"
    ));
}

#[test]
fn the_corner_of_the_screen() {
    let ok = vga::kmain();
    assert_eq!((ok[0].addr, ok[0].value), (0xffff_ffff_800b_8000, 0x0f4f));
    assert_eq!((ok[1].addr, ok[1].value), (0xffff_ffff_800b_8002, 0x0f4b));
    let alarm = vga::alarm();
    assert_eq!((alarm[0].value, alarm[1].value), (0x0c21, 0x0c21));
}
