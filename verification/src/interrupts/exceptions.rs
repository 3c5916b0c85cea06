//! The table of interrupt vectors.
//!
//! An entry has a stack of its own only where the processor needs one that is known to be
//! good: for the double fault, the non-maskable interrupt and the machine check.

use crate::gdt::{DOUBLE_FAULT_IST_INDEX, MACHINE_CHECK_IST_INDEX, NMI_IST_INDEX};
use crate::interrupts::vectors::{
    InterruptVector, EXC_ALIGNMENT_CHECK, EXC_BOUND_RANGE, EXC_BREAKPOINT, EXC_DEBUG,
    EXC_DEVICE_NOT_AVAILABLE, EXC_DIVIDE_ERROR, EXC_DOUBLE_FAULT, EXC_GENERAL_PROTECTION,
    EXC_INVALID_OPCODE, EXC_INVALID_TSS, EXC_MACHINE_CHECK, EXC_NMI, EXC_OVERFLOW,
    EXC_PAGE_FAULT, EXC_SEGMENT_NOT_PRESENT, EXC_SIMD_FP, EXC_STACK_SEGMENT, EXC_VIRTUALIZATION,
    EXC_X87_FP, PIC_IRQ_ATA_PRIMARY, PIC_IRQ_ATA_SECONDARY, PIC_IRQ_KEYBOARD, PIC_IRQ_LPT1,
    PIC_IRQ_MOUSE, PIC_IRQ_RTC, PIC_IRQ_TIMER,
};
use vstd::prelude::*;

verus! {

/// The handlers that a vector can be answered by.
#[derive(Debug, Clone, Copy, PartialEq, Eq, Structural)]
pub enum Handler {
    /// [`crate::interrupts::handlers::divide_error_handler`].
    DivideError,
    /// [`crate::interrupts::handlers::debug_handler`].
    Debug,
    /// [`crate::interrupts::handlers::nmi_handler`].
    Nmi,
    /// [`crate::interrupts::handlers::breakpoint_handler`].
    Breakpoint,
    /// [`crate::interrupts::handlers::overflow_handler`].
    Overflow,
    /// [`crate::interrupts::handlers::bound_range_handler`].
    BoundRange,
    /// [`crate::interrupts::handlers::invalid_opcode_handler`].
    InvalidOpcode,
    /// [`crate::interrupts::handlers::device_not_available_handler`].
    DeviceNotAvailable,
    /// [`crate::interrupts::handlers::double_fault_handler`].
    DoubleFault,
    /// [`crate::interrupts::handlers::invalid_tss_handler`].
    InvalidTss,
    /// [`crate::interrupts::handlers::segment_not_present_handler`].
    SegmentNotPresent,
    /// [`crate::interrupts::handlers::stack_segment_handler`].
    StackSegment,
    /// [`crate::interrupts::handlers::general_protection_handler`].
    GeneralProtection,
    /// [`crate::interrupts::handlers::page_fault_handler`].
    PageFault,
    /// [`crate::interrupts::handlers::x87_fp_handler`].
    X87Fp,
    /// [`crate::interrupts::handlers::alignment_check_handler`].
    AlignmentCheck,
    /// [`crate::interrupts::handlers::machine_check_handler`].
    MachineCheck,
    /// [`crate::interrupts::handlers::simd_fp_handler`].
    SimdFp,
    /// [`crate::interrupts::handlers::virtualization_handler`].
    Virtualization,
    /// [`crate::interrupts::handlers::timer_handler`].
    Timer,
    /// [`crate::interrupts::handlers::keyboard_handler`].
    Keyboard,
    /// [`crate::interrupts::handlers::spurious_master_handler`].
    SpuriousMaster,
    /// [`crate::interrupts::handlers::rtc_handler`].
    Rtc,
    /// [`crate::interrupts::handlers::mouse_handler`].
    Mouse,
    /// [`crate::interrupts::handlers::ata_primary_handler`].
    AtaPrimary,
    /// [`crate::interrupts::handlers::ata_secondary_handler`].
    AtaSecondary,
    /// [`crate::interrupts::minimal::breakpoint_handler`].
    PlainBreakpoint,
    /// [`crate::interrupts::minimal::double_fault_handler`].
    PlainDoubleFault,
}

/// One row of the table: the handler of a vector, and the slot of the stack it runs on if
/// it has one of its own.
#[derive(Debug, Clone, Copy, PartialEq, Eq, Structural)]
pub struct Entry {
    /// The vector that the entry serves.
    pub vector: u8,
    /// The handler that answers it.
    pub handler: Handler,
    /// Slot of its stack.
    pub stack_index: Option<u16>,
}

/// An entry on the stack that was in use.
pub open spec fn entry_spec(vector: u8, handler: Handler) -> Entry {
    Entry { vector, handler, stack_index: None }
}

/// An entry on the stack that was in use.
#[verifier::when_used_as_spec(entry_spec)]
pub fn entry(vector: u8, handler: Handler) -> (g: Entry)
    ensures
        g == entry_spec(vector, handler),
{
    Entry { vector, handler, stack_index: None }
}

/// An entry on a stack of its own.
pub open spec fn own_stack_spec(vector: u8, handler: Handler, slot: u16) -> Entry {
    Entry { vector, handler, stack_index: Some(slot) }
}

/// An entry on a stack of its own.
#[verifier::when_used_as_spec(own_stack_spec)]
pub fn own_stack(vector: u8, handler: Handler, slot: u16) -> (g: Entry)
    ensures
        g == own_stack_spec(vector, handler, slot),
{
    Entry { vector, handler, stack_index: Some(slot) }
}

/// The entries of the kernel, by rising vector.
pub open spec fn entries() -> Seq<Entry> {
    seq![
        entry(EXC_DIVIDE_ERROR, Handler::DivideError),
        entry(EXC_DEBUG, Handler::Debug),
        own_stack(EXC_NMI, Handler::Nmi, NMI_IST_INDEX),
        entry(EXC_BREAKPOINT, Handler::Breakpoint),
        entry(EXC_OVERFLOW, Handler::Overflow),
        entry(EXC_BOUND_RANGE, Handler::BoundRange),
        entry(EXC_INVALID_OPCODE, Handler::InvalidOpcode),
        entry(EXC_DEVICE_NOT_AVAILABLE, Handler::DeviceNotAvailable),
        own_stack(EXC_DOUBLE_FAULT, Handler::DoubleFault, DOUBLE_FAULT_IST_INDEX),
        entry(EXC_INVALID_TSS, Handler::InvalidTss),
        entry(EXC_SEGMENT_NOT_PRESENT, Handler::SegmentNotPresent),
        entry(EXC_STACK_SEGMENT, Handler::StackSegment),
        entry(EXC_GENERAL_PROTECTION, Handler::GeneralProtection),
        entry(EXC_PAGE_FAULT, Handler::PageFault),
        entry(EXC_X87_FP, Handler::X87Fp),
        entry(EXC_ALIGNMENT_CHECK, Handler::AlignmentCheck),
        own_stack(EXC_MACHINE_CHECK, Handler::MachineCheck, MACHINE_CHECK_IST_INDEX),
        entry(EXC_SIMD_FP, Handler::SimdFp),
        entry(EXC_VIRTUALIZATION, Handler::Virtualization),
        entry(PIC_IRQ_TIMER, Handler::Timer),
        entry(PIC_IRQ_KEYBOARD, Handler::Keyboard),
        entry(PIC_IRQ_LPT1, Handler::SpuriousMaster),
        entry(PIC_IRQ_RTC, Handler::Rtc),
        entry(PIC_IRQ_MOUSE, Handler::Mouse),
        entry(PIC_IRQ_ATA_PRIMARY, Handler::AtaPrimary),
        entry(PIC_IRQ_ATA_SECONDARY, Handler::AtaSecondary),
    ]
}

/// The entries to load before any exception or interrupt can be handled.
pub fn init() -> (table: Vec<Entry>)
    ensures
        table@ == entries(),
{
    let table: Vec<Entry> = vec![
        entry(EXC_DIVIDE_ERROR, Handler::DivideError),
        entry(EXC_DEBUG, Handler::Debug),
        own_stack(EXC_NMI, Handler::Nmi, NMI_IST_INDEX),
        entry(EXC_BREAKPOINT, Handler::Breakpoint),
        entry(EXC_OVERFLOW, Handler::Overflow),
        entry(EXC_BOUND_RANGE, Handler::BoundRange),
        entry(EXC_INVALID_OPCODE, Handler::InvalidOpcode),
        entry(EXC_DEVICE_NOT_AVAILABLE, Handler::DeviceNotAvailable),
        own_stack(EXC_DOUBLE_FAULT, Handler::DoubleFault, DOUBLE_FAULT_IST_INDEX),
        entry(EXC_INVALID_TSS, Handler::InvalidTss),
        entry(EXC_SEGMENT_NOT_PRESENT, Handler::SegmentNotPresent),
        entry(EXC_STACK_SEGMENT, Handler::StackSegment),
        entry(EXC_GENERAL_PROTECTION, Handler::GeneralProtection),
        entry(EXC_PAGE_FAULT, Handler::PageFault),
        entry(EXC_X87_FP, Handler::X87Fp),
        entry(EXC_ALIGNMENT_CHECK, Handler::AlignmentCheck),
        own_stack(EXC_MACHINE_CHECK, Handler::MachineCheck, MACHINE_CHECK_IST_INDEX),
        entry(EXC_SIMD_FP, Handler::SimdFp),
        entry(EXC_VIRTUALIZATION, Handler::Virtualization),
        entry(InterruptVector::Timer.as_u8(), Handler::Timer),
        entry(InterruptVector::Keyboard.as_u8(), Handler::Keyboard),
        entry(InterruptVector::SpuriousMaster.as_u8(), Handler::SpuriousMaster),
        entry(InterruptVector::Rtc.as_u8(), Handler::Rtc),
        entry(InterruptVector::Mouse.as_u8(), Handler::Mouse),
        entry(InterruptVector::AtaPrimary.as_u8(), Handler::AtaPrimary),
        entry(InterruptVector::AtaSecondary.as_u8(), Handler::AtaSecondary),
    ];
    assert(table@ =~= entries());
    table
}

/// The handler of `vector` in a table from row `from` on, if it has an entry.
pub open spec fn handler_named(table: Seq<Entry>, vector: u8, from: int) -> Option<Handler>
    decreases table.len() - from,
{
    if from >= table.len() {
        None
    } else if table[from].vector == vector {
        Some(table[from].handler)
    } else {
        handler_named(table, vector, from + 1)
    }
}

/// The handler of `vector` in a table, if it has an entry.
pub fn handler_of(table: &Vec<Entry>, vector: u8) -> (h: Option<Handler>)
    ensures
        h == handler_named(table@, vector, 0),
        match h {
            Some(h) => exists|i: int| #[trigger]
                serves_first(table@, vector, 0, i) && table@[i].handler == h,
            None => forall|i: int|
                0 <= i < table@.len() ==> (#[trigger] table@[i]).vector != vector,
        },
{
    let mut i: usize = 0;
    while i < table.len()
        invariant
            i <= table@.len(),
            handler_named(table@, vector, 0) == handler_named(table@, vector, i as int),
            forall|j: int| 0 <= j < i ==> (#[trigger] table@[j]).vector != vector,
        decreases table@.len() - i,
    {
        if table[i].vector == vector {
            assert(serves_first(table@, vector, 0, i as int));
            return Some(table[i].handler);
        }
        i = i + 1;
    }
    None
}

/// No vector has two entries and no handler serves two, no entry serves a reserved vector, and
/// the three entries that have a stack of their own do not share it.
pub proof fn law_entries()
    ensures
        entries().len() == 26,
        forall|i: int, j: int|
            0 <= i < j < entries().len() ==> #[trigger] entries()[i].vector
                < #[trigger] entries()[j].vector,
        forall|i: int, j: int|
            0 <= i < j < entries().len() ==> #[trigger] entries()[i].handler
                != #[trigger] entries()[j].handler,
        forall|i: int|
            0 <= i < entries().len() ==> (#[trigger] entries()[i]).vector <= EXC_VIRTUALIZATION
                && entries()[i].vector != 9 && entries()[i].vector != 15 || PIC_IRQ_TIMER
                <= entries()[i].vector <= PIC_IRQ_ATA_SECONDARY,
        forall|i: int|
            0 <= i < entries().len() ==> ((#[trigger] entries()[i]).stack_index is Some
                <==> entries()[i].vector == EXC_DOUBLE_FAULT || entries()[i].vector == EXC_NMI
                || entries()[i].vector == EXC_MACHINE_CHECK),
        forall|i: int, j: int|
            0 <= i < entries().len() && 0 <= j < entries().len() && i != j && (
            #[trigger] entries()[i]).stack_index is Some ==> entries()[i].stack_index != (
            #[trigger] entries()[j]).stack_index,
{
}

/// Row `i` of a table is the first from row `from` on that serves `vector`.
pub open spec fn serves_first(table: Seq<Entry>, vector: u8, from: int, i: int) -> bool {
    &&& from <= i < table.len()
    &&& table[i].vector == vector
    &&& forall|j: int| from <= j < i ==> (#[trigger] table[j]).vector != vector
}

/// Looking a vector up from row `from` on finds the first row there that serves it, and
/// nothing exactly if no row there does.
pub proof fn law_lookup(table: Seq<Entry>, vector: u8, from: int)
    requires
        0 <= from <= table.len(),
    ensures
        match handler_named(table, vector, from) {
            Some(h) => exists|i: int| #[trigger]
                serves_first(table, vector, from, i) && table[i].handler == h,
            None => forall|i: int|
                from <= i < table.len() ==> (#[trigger] table[i]).vector != vector,
        },
    decreases table.len() - from,
{
    if from < table.len() {
        if table[from].vector == vector {
            assert(serves_first(table, vector, from, from));
        } else {
            law_lookup(table, vector, from + 1);
            if let Some(h) = handler_named(table, vector, from) {
                let i = choose|i: int| #[trigger]
                    serves_first(table, vector, from + 1, i) && table[i].handler == h;
                assert(serves_first(table, vector, from, i));
            }
        }
    }
}

/// Each vector of the table is answered by the handler for what the processor or the
/// interrupt controllers raise it for, and no other vector is answered at all.
pub proof fn law_served(vector: u8)
    ensures
        handler_named(entries(), vector, 0) == (match vector {
            0x00u8 => Some(Handler::DivideError),
            0x01u8 => Some(Handler::Debug),
            0x02u8 => Some(Handler::Nmi),
            0x03u8 => Some(Handler::Breakpoint),
            0x04u8 => Some(Handler::Overflow),
            0x05u8 => Some(Handler::BoundRange),
            0x06u8 => Some(Handler::InvalidOpcode),
            0x07u8 => Some(Handler::DeviceNotAvailable),
            0x08u8 => Some(Handler::DoubleFault),
            0x0au8 => Some(Handler::InvalidTss),
            0x0bu8 => Some(Handler::SegmentNotPresent),
            0x0cu8 => Some(Handler::StackSegment),
            0x0du8 => Some(Handler::GeneralProtection),
            0x0eu8 => Some(Handler::PageFault),
            0x10u8 => Some(Handler::X87Fp),
            0x11u8 => Some(Handler::AlignmentCheck),
            0x12u8 => Some(Handler::MachineCheck),
            0x13u8 => Some(Handler::SimdFp),
            0x14u8 => Some(Handler::Virtualization),
            0x20u8 => Some(Handler::Timer),
            0x21u8 => Some(Handler::Keyboard),
            0x27u8 => Some(Handler::SpuriousMaster),
            0x28u8 => Some(Handler::Rtc),
            0x2cu8 => Some(Handler::Mouse),
            0x2eu8 => Some(Handler::AtaPrimary),
            0x2fu8 => Some(Handler::AtaSecondary),
            _ => None,
        }),
{
    law_lookup(entries(), vector, 0);
    law_entries();
    let all = entries();
    assert(all[0].vector == 0x00 && all[0].handler == Handler::DivideError);
    assert(all[1].vector == 0x01 && all[1].handler == Handler::Debug);
    assert(all[2].vector == 0x02 && all[2].handler == Handler::Nmi);
    assert(all[3].vector == 0x03 && all[3].handler == Handler::Breakpoint);
    assert(all[4].vector == 0x04 && all[4].handler == Handler::Overflow);
    assert(all[5].vector == 0x05 && all[5].handler == Handler::BoundRange);
    assert(all[6].vector == 0x06 && all[6].handler == Handler::InvalidOpcode);
    assert(all[7].vector == 0x07 && all[7].handler == Handler::DeviceNotAvailable);
    assert(all[8].vector == 0x08 && all[8].handler == Handler::DoubleFault);
    assert(all[9].vector == 0x0a && all[9].handler == Handler::InvalidTss);
    assert(all[10].vector == 0x0b && all[10].handler == Handler::SegmentNotPresent);
    assert(all[11].vector == 0x0c && all[11].handler == Handler::StackSegment);
    assert(all[12].vector == 0x0d && all[12].handler == Handler::GeneralProtection);
    assert(all[13].vector == 0x0e && all[13].handler == Handler::PageFault);
    assert(all[14].vector == 0x10 && all[14].handler == Handler::X87Fp);
    assert(all[15].vector == 0x11 && all[15].handler == Handler::AlignmentCheck);
    assert(all[16].vector == 0x12 && all[16].handler == Handler::MachineCheck);
    assert(all[17].vector == 0x13 && all[17].handler == Handler::SimdFp);
    assert(all[18].vector == 0x14 && all[18].handler == Handler::Virtualization);
    assert(all[19].vector == 0x20 && all[19].handler == Handler::Timer);
    assert(all[20].vector == 0x21 && all[20].handler == Handler::Keyboard);
    assert(all[21].vector == 0x27 && all[21].handler == Handler::SpuriousMaster);
    assert(all[22].vector == 0x28 && all[22].handler == Handler::Rtc);
    assert(all[23].vector == 0x2c && all[23].handler == Handler::Mouse);
    assert(all[24].vector == 0x2e && all[24].handler == Handler::AtaPrimary);
    assert(all[25].vector == 0x2f && all[25].handler == Handler::AtaSecondary);
    match handler_named(all, vector, 0) {
        Some(h) => {
            let i = choose|i: int| #[trigger]
                serves_first(all, vector, 0, i) && all[i].handler == h;
            assert(all[i].vector == vector && all[i].handler == h);
        },
        None => {},
    }
}

/// The entries with a stack of their own have that which is kept for them.
pub proof fn law_stacks(i: int)
    requires
        0 <= i < entries().len(),
    ensures
        entries()[i].handler == Handler::DoubleFault ==> entries()[i].stack_index == Some(0u16),
        entries()[i].handler == Handler::Nmi ==> entries()[i].stack_index == Some(1u16),
        entries()[i].handler == Handler::MachineCheck ==> entries()[i].stack_index == Some(2u16),
        entries()[i].handler != Handler::DoubleFault && entries()[i].handler != Handler::Nmi
            && entries()[i].handler != Handler::MachineCheck ==> entries()[i].stack_index is None,
{
}

/// What is found for a vector in the table that is loaded is the handler for what the vector
/// is raised for.
pub proof fn law_found(table: &Vec<Entry>, vector: u8, h: Option<Handler>)
    requires
        call_ensures(init, (), *table),
        call_ensures(handler_of, (table, vector), h),
    ensures
        h is Some <==> vector <= 8 || 10 <= vector <= 14 || 16 <= vector <= 20 || 0x20 <= vector
            <= 0x21 || 0x27 <= vector <= 0x28 || vector == 0x2c || 0x2e <= vector <= 0x2f,
        h == Some(Handler::Timer) <==> vector == 0x20,
        h == Some(Handler::Keyboard) <==> vector == 0x21,
        h == Some(Handler::SpuriousMaster) <==> vector == 0x27,
        h == Some(Handler::Rtc) <==> vector == 0x28,
        h == Some(Handler::Mouse) <==> vector == 0x2c,
        h == Some(Handler::AtaPrimary) <==> vector == 0x2e,
        h == Some(Handler::AtaSecondary) <==> vector == 0x2f,
        h == Some(Handler::DoubleFault) <==> vector == 8,
        h == Some(Handler::GeneralProtection) <==> vector == 13,
        h == Some(Handler::PageFault) <==> vector == 14,
{
    law_served(vector);
}

} // verus!
