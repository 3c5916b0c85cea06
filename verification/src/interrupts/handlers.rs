//! What each interrupt leads to.
//!
//! Faults that can be survived are logged; the others stop the kernel with what is known of
//! them. Hardware interrupts are counted, passed on to the handler that is registered for
//! their line, and acknowledged.

use crate::interrupts::exceptions::{entries, handler_named, law_served, Handler};
use crate::interrupts::keyboard::{bytes_given, events_after, events_given, typed, Decoder};
use crate::interrupts::pic::{
    eoi_if_not_spurious_master, eoi_if_not_spurious_slave, law_register_bit, register_bit, Step,
    END_OF_INTERRUPT, MASTER_COMMAND,
};
use crate::interrupts::stats::{record, recorded, Counters};
use crate::interrupts::vectors::{
    InterruptVector, EXC_ALIGNMENT_CHECK, EXC_BOUND_RANGE, EXC_BREAKPOINT, EXC_DEBUG,
    EXC_DEVICE_NOT_AVAILABLE, EXC_DIVIDE_ERROR, EXC_DOUBLE_FAULT, EXC_GENERAL_PROTECTION,
    EXC_INVALID_OPCODE, EXC_INVALID_TSS, EXC_MACHINE_CHECK, EXC_NMI, EXC_OVERFLOW,
    EXC_PAGE_FAULT, EXC_SEGMENT_NOT_PRESENT, EXC_SIMD_FP, EXC_STACK_SEGMENT, EXC_VIRTUALIZATION,
    EXC_X87_FP, PIC_IRQ_ATA_PRIMARY, PIC_IRQ_ATA_SECONDARY, PIC_IRQ_KEYBOARD, PIC_IRQ_LPT1,
    PIC_IRQ_MOUSE, PIC_IRQ_RTC, PIC_IRQ_TIMER,
};
use crate::text::{hex, hex_text};
use vstd::prelude::*;
use vstd::string::StringExecFns;

verus! {

/// Data port of the keyboard and mouse controller.
pub const PS2_DATA: u16 = 0x60;

/// Port that selects a register of the clock.
pub const RTC_SELECT: u16 = 0x70;

/// Port that the selected register of the clock is read from.
pub const RTC_DATA: u16 = 0x71;

/// Register of the clock that has to be read before its next interrupt.
pub const RTC_REGISTER_C: u8 = 0x0c;

/// An address is canonical if its upper bits all equal bit 47.
pub open spec fn canonical(a: u64) -> bool {
    a < 0x8000_0000_0000 || a >= 0xffff_8000_0000_0000
}

/// What the processor puts on the stack when an interrupt comes.
#[derive(Debug, Clone, Copy, PartialEq, Eq, Structural)]
pub struct Frame {
    /// Where execution was.
    pub instruction_pointer: u64,
    /// The code segment.
    pub code_segment: u16,
    /// The flags register.
    pub cpu_flags: u64,
    /// Where the stack was.
    pub stack_pointer: u64,
    /// The stack segment.
    pub stack_segment: u16,
}

/// The long form of a frame as text.
pub uninterp spec fn frame_dump(ip: u64, cs: u16, flags: u64, sp: u64, ss: u16) -> Seq<char>;

/// The names of the flags of a page fault as text.
pub uninterp spec fn fault_flags(bits: u64) -> Seq<char>;

/// The long debug form of [`x86_64::structures::idt::InterruptStackFrame`], made of these
/// values by its `new`. It rests on them alone.
#[verifier::external_body]
fn frame_text(ip: u64, cs: u16, flags: u64, sp: u64, ss: u16) -> (s: String)
    requires
        canonical(ip),
        canonical(sp),
    ensures
        s@ == frame_dump(ip, cs, flags, sp, ss),
{
    let frame = x86_64::structures::idt::InterruptStackFrame::new(
        x86_64::VirtAddr::new(ip),
        x86_64::structures::gdt::SegmentSelector(cs),
        x86_64::registers::rflags::RFlags::from_bits_retain(flags),
        x86_64::VirtAddr::new(sp),
        x86_64::structures::gdt::SegmentSelector(ss),
    );
    format!("{:#?}", frame)
}

/// The debug form of [`x86_64::structures::idt::PageFaultErrorCode`] with these bits. It
/// rests on them alone.
#[verifier::external_body]
fn fault_flags_text(bits: u64) -> (s: String)
    ensures
        s@ == fault_flags(bits),
{
    format!("{:?}", x86_64::structures::idt::PageFaultErrorCode::from_bits_retain(bits))
}

impl Frame {
    /// The two addresses are canonical, as those that a processor pushes always are.
    pub open spec fn wf(&self) -> bool {
        canonical(self.instruction_pointer) && canonical(self.stack_pointer)
    }

    /// The long form of the frame.
    pub open spec fn dump(&self) -> Seq<char> {
        frame_dump(
            self.instruction_pointer,
            self.code_segment,
            self.cpu_flags,
            self.stack_pointer,
            self.stack_segment,
        )
    }

    /// The long form of the frame.
    pub(crate) fn text(&self) -> (s: String)
        requires
            self.wf(),
        ensures
            s@ == self.dump(),
    {
        frame_text(
            self.instruction_pointer,
            self.code_segment,
            self.cpu_flags,
            self.stack_pointer,
            self.stack_segment,
        )
    }
}

/// What comes of an exception.
pub enum Outcome {
    /// The kernel stops with this message.
    Panic(String),
    /// This is printed, and execution goes on.
    Print(String),
}

/// Divide error: not survived.
pub fn divide_error_handler(stats: &mut Counters, frame: &Frame) -> (r: Outcome)
    requires
        frame.wf(),
    ensures
        final(stats)@ == recorded(old(stats)@, EXC_DIVIDE_ERROR),
        r matches Outcome::Panic(s) && s@ == "EXCEPTION: DIVIDE ERROR (#DE)\n"@
            + "Instruction pointer: "@
            + hex_text(frame.instruction_pointer as int)
            + "\n"@
            + frame.dump(),
{
    record(stats, EXC_DIVIDE_ERROR);
    let mut s: String = String::from_str("EXCEPTION: DIVIDE ERROR (#DE)\n");
    s.append("Instruction pointer: ");
    s.append(hex(frame.instruction_pointer).as_str());
    s.append("\n");
    s.append(frame.text().as_str());
    Outcome::Panic(s)
}

/// Debug exception: logged.
pub fn debug_handler(stats: &mut Counters, frame: &Frame) -> (r: Outcome)
    ensures
        final(stats)@ == recorded(old(stats)@, EXC_DEBUG),
        r matches Outcome::Print(s) && s@ == "EXCEPTION: DEBUG (#DB)\n"@
            + "ip="@
            + hex_text(frame.instruction_pointer as int)
            + " sp="@
            + hex_text(frame.stack_pointer as int)
            + "\n"@,
{
    record(stats, EXC_DEBUG);
    let mut s: String = String::from_str("EXCEPTION: DEBUG (#DB)\n");
    s.append("ip=");
    s.append(hex(frame.instruction_pointer).as_str());
    s.append(" sp=");
    s.append(hex(frame.stack_pointer).as_str());
    s.append("\n");
    Outcome::Print(s)
}

/// Non-maskable interrupt: not survived.
pub fn nmi_handler(stats: &mut Counters, frame: &Frame) -> (r: Outcome)
    requires
        frame.wf(),
    ensures
        final(stats)@ == recorded(old(stats)@, EXC_NMI),
        r matches Outcome::Panic(s) && s@ == "EXCEPTION: NON-MASKABLE INTERRUPT (NMI)\n"@
            + "This usually indicates hardware failure (RAM, watchdog, or bus error).\n"@
            + "ip="@
            + hex_text(frame.instruction_pointer as int)
            + "\n"@
            + frame.dump(),
{
    record(stats, EXC_NMI);
    let mut s: String = String::from_str("EXCEPTION: NON-MASKABLE INTERRUPT (NMI)\n");
    s.append("This usually indicates hardware failure (RAM, watchdog, or bus error).\n");
    s.append("ip=");
    s.append(hex(frame.instruction_pointer).as_str());
    s.append("\n");
    s.append(frame.text().as_str());
    Outcome::Panic(s)
}

/// Breakpoint: logged, and execution goes on.
pub fn breakpoint_handler(stats: &mut Counters, frame: &Frame) -> (r: Outcome)
    ensures
        final(stats)@ == recorded(old(stats)@, EXC_BREAKPOINT),
        r matches Outcome::Print(s) && s@ == "EXCEPTION: BREAKPOINT (#BP)\n"@
            + "ip="@
            + hex_text(frame.instruction_pointer as int)
            + " sp="@
            + hex_text(frame.stack_pointer as int)
            + "\n"@,
{
    record(stats, EXC_BREAKPOINT);
    let mut s: String = String::from_str("EXCEPTION: BREAKPOINT (#BP)\n");
    s.append("ip=");
    s.append(hex(frame.instruction_pointer).as_str());
    s.append(" sp=");
    s.append(hex(frame.stack_pointer).as_str());
    s.append("\n");
    Outcome::Print(s)
}

/// Overflow: logged.
pub fn overflow_handler(stats: &mut Counters, frame: &Frame) -> (r: Outcome)
    ensures
        final(stats)@ == recorded(old(stats)@, EXC_OVERFLOW),
        r matches Outcome::Print(s) && s@ == "EXCEPTION: OVERFLOW (#OF)\n"@
            + "ip="@
            + hex_text(frame.instruction_pointer as int)
            + "\n"@,
{
    record(stats, EXC_OVERFLOW);
    let mut s: String = String::from_str("EXCEPTION: OVERFLOW (#OF)\n");
    s.append("ip=");
    s.append(hex(frame.instruction_pointer).as_str());
    s.append("\n");
    Outcome::Print(s)
}

/// Bound range exceeded: not survived.
pub fn bound_range_handler(stats: &mut Counters, frame: &Frame) -> (r: Outcome)
    requires
        frame.wf(),
    ensures
        final(stats)@ == recorded(old(stats)@, EXC_BOUND_RANGE),
        r matches Outcome::Panic(s) && s@ == "EXCEPTION: BOUND RANGE EXCEEDED (#BR)\n"@
            + "ip="@
            + hex_text(frame.instruction_pointer as int)
            + "\n"@
            + frame.dump(),
{
    record(stats, EXC_BOUND_RANGE);
    let mut s: String = String::from_str("EXCEPTION: BOUND RANGE EXCEEDED (#BR)\n");
    s.append("ip=");
    s.append(hex(frame.instruction_pointer).as_str());
    s.append("\n");
    s.append(frame.text().as_str());
    Outcome::Panic(s)
}

/// Invalid opcode: not survived.
pub fn invalid_opcode_handler(stats: &mut Counters, frame: &Frame) -> (r: Outcome)
    requires
        frame.wf(),
    ensures
        final(stats)@ == recorded(old(stats)@, EXC_INVALID_OPCODE),
        r matches Outcome::Panic(s) && s@ == "EXCEPTION: INVALID OPCODE (#UD)\n"@
            + "ip="@
            + hex_text(frame.instruction_pointer as int)
            + "  (check for miscompiled code or unsupported CPU feature)\n"@
            + frame.dump(),
{
    record(stats, EXC_INVALID_OPCODE);
    let mut s: String = String::from_str("EXCEPTION: INVALID OPCODE (#UD)\n");
    s.append("ip=");
    s.append(hex(frame.instruction_pointer).as_str());
    s.append("  (check for miscompiled code or unsupported CPU feature)\n");
    s.append(frame.text().as_str());
    Outcome::Panic(s)
}

/// Device not available: not survived.
pub fn device_not_available_handler(stats: &mut Counters, frame: &Frame) -> (r: Outcome)
    requires
        frame.wf(),
    ensures
        final(stats)@ == recorded(old(stats)@, EXC_DEVICE_NOT_AVAILABLE),
        r matches Outcome::Panic(s) && s@ == "EXCEPTION: DEVICE NOT AVAILABLE (#NM)\n"@
            + "FPU/SSE state not saved.  Implement lazy FPU switching.\n"@
            + frame.dump(),
{
    record(stats, EXC_DEVICE_NOT_AVAILABLE);
    let mut s: String = String::from_str("EXCEPTION: DEVICE NOT AVAILABLE (#NM)\n");
    s.append("FPU/SSE state not saved.  Implement lazy FPU switching.\n");
    s.append(frame.text().as_str());
    Outcome::Panic(s)
}

/// Double fault: not survived.
pub fn double_fault_handler(stats: &mut Counters, frame: &Frame) -> (r: Outcome)
    requires
        frame.wf(),
    ensures
        final(stats)@ == recorded(old(stats)@, EXC_DOUBLE_FAULT),
        r matches Outcome::Panic(s) && s@ == "EXCEPTION: DOUBLE FAULT (#DF)\n"@
            + "This indicates a fault occurred while handling another fault,\n"@
            + "or a stack overflow corrupted the stack pointer.\n"@
            + frame.dump(),
{
    record(stats, EXC_DOUBLE_FAULT);
    let mut s: String = String::from_str("EXCEPTION: DOUBLE FAULT (#DF)\n");
    s.append("This indicates a fault occurred while handling another fault,\n");
    s.append("or a stack overflow corrupted the stack pointer.\n");
    s.append(frame.text().as_str());
    Outcome::Panic(s)
}

/// Invalid task state segment: not survived.
pub fn invalid_tss_handler(stats: &mut Counters, frame: &Frame, error_code: u64) -> (r: Outcome)
    requires
        frame.wf(),
    ensures
        final(stats)@ == recorded(old(stats)@, EXC_INVALID_TSS),
        r matches Outcome::Panic(s) && s@ == "EXCEPTION: INVALID TSS (#TS)\n"@
            + "Selector: "@
            + hex_text(error_code as int)
            + "\n"@
            + frame.dump(),
{
    record(stats, EXC_INVALID_TSS);
    let mut s: String = String::from_str("EXCEPTION: INVALID TSS (#TS)\n");
    s.append("Selector: ");
    s.append(hex(error_code).as_str());
    s.append("\n");
    s.append(frame.text().as_str());
    Outcome::Panic(s)
}

/// Segment not present: not survived.
pub fn segment_not_present_handler(
    stats: &mut Counters,
    frame: &Frame,
    error_code: u64,
) -> (r: Outcome)
    requires
        frame.wf(),
    ensures
        final(stats)@ == recorded(old(stats)@, EXC_SEGMENT_NOT_PRESENT),
        r matches Outcome::Panic(s) && s@ == "EXCEPTION: SEGMENT NOT PRESENT (#NP)\n"@
            + "Selector: "@
            + hex_text(error_code as int)
            + "\n"@
            + frame.dump(),
{
    record(stats, EXC_SEGMENT_NOT_PRESENT);
    let mut s: String = String::from_str("EXCEPTION: SEGMENT NOT PRESENT (#NP)\n");
    s.append("Selector: ");
    s.append(hex(error_code).as_str());
    s.append("\n");
    s.append(frame.text().as_str());
    Outcome::Panic(s)
}

/// Stack-segment fault: not survived.
pub fn stack_segment_handler(stats: &mut Counters, frame: &Frame, error_code: u64) -> (r: Outcome)
    requires
        frame.wf(),
    ensures
        final(stats)@ == recorded(old(stats)@, EXC_STACK_SEGMENT),
        r matches Outcome::Panic(s) && s@ == "EXCEPTION: STACK-SEGMENT FAULT (#SS)\n"@
            + "Selector/offset: "@
            + hex_text(error_code as int)
            + "\n"@
            + frame.dump(),
{
    record(stats, EXC_STACK_SEGMENT);
    let mut s: String = String::from_str("EXCEPTION: STACK-SEGMENT FAULT (#SS)\n");
    s.append("Selector/offset: ");
    s.append(hex(error_code).as_str());
    s.append("\n");
    s.append(frame.text().as_str());
    Outcome::Panic(s)
}

/// General protection fault: not survived.
pub fn general_protection_handler(
    stats: &mut Counters,
    frame: &Frame,
    error_code: u64,
) -> (r: Outcome)
    requires
        frame.wf(),
    ensures
        final(stats)@ == recorded(old(stats)@, EXC_GENERAL_PROTECTION),
        r matches Outcome::Panic(s) && s@ == "EXCEPTION: GENERAL PROTECTION FAULT (#GP)\n"@
            + "Error code: "@
            + hex_text(error_code as int)
            + "  (0 = not segment-related)\n"@
            + "ip="@
            + hex_text(frame.instruction_pointer as int)
            + "\n"@
            + frame.dump(),
{
    record(stats, EXC_GENERAL_PROTECTION);
    let mut s: String = String::from_str("EXCEPTION: GENERAL PROTECTION FAULT (#GP)\n");
    s.append("Error code: ");
    s.append(hex(error_code).as_str());
    s.append("  (0 = not segment-related)\n");
    s.append("ip=");
    s.append(hex(frame.instruction_pointer).as_str());
    s.append("\n");
    s.append(frame.text().as_str());
    Outcome::Panic(s)
}

/// Page fault at `address`: not survived.
pub fn page_fault_handler(
    stats: &mut Counters,
    frame: &Frame,
    error_code: u64,
    address: u64,
) -> (r: Outcome)
    requires
        frame.wf(),
    ensures
        final(stats)@ == recorded(old(stats)@, EXC_PAGE_FAULT),
        r matches Outcome::Panic(s) && s@ == "EXCEPTION: PAGE FAULT (#PF)\n"@
            + "Faulting address : "@
            + hex_text(address as int)
            + "\n"@
            + "Error flags      : "@
            + fault_flags(error_code)
            + "\n"@
            + "ip="@
            + hex_text(frame.instruction_pointer as int)
            + "\n"@
            + frame.dump(),
{
    record(stats, EXC_PAGE_FAULT);
    let mut s: String = String::from_str("EXCEPTION: PAGE FAULT (#PF)\n");
    s.append("Faulting address : ");
    s.append(hex(address).as_str());
    s.append("\n");
    s.append("Error flags      : ");
    s.append(fault_flags_text(error_code).as_str());
    s.append("\n");
    s.append("ip=");
    s.append(hex(frame.instruction_pointer).as_str());
    s.append("\n");
    s.append(frame.text().as_str());
    Outcome::Panic(s)
}

/// Floating-point exception of the x87 unit: not survived.
pub fn x87_fp_handler(stats: &mut Counters, frame: &Frame) -> (r: Outcome)
    requires
        frame.wf(),
    ensures
        final(stats)@ == recorded(old(stats)@, EXC_X87_FP),
        r matches Outcome::Panic(s) && s@ == "EXCEPTION: x87 FLOATING-POINT (#MF)\n"@
            + "Check x87 FPU status word for specific condition.\n"@
            + frame.dump(),
{
    record(stats, EXC_X87_FP);
    let mut s: String = String::from_str("EXCEPTION: x87 FLOATING-POINT (#MF)\n");
    s.append("Check x87 FPU status word for specific condition.\n");
    s.append(frame.text().as_str());
    Outcome::Panic(s)
}

/// Alignment check: not survived.
pub fn alignment_check_handler(stats: &mut Counters, frame: &Frame, error_code: u64) -> (r: Outcome)
    requires
        frame.wf(),
    ensures
        final(stats)@ == recorded(old(stats)@, EXC_ALIGNMENT_CHECK),
        r matches Outcome::Panic(s) && s@ == "EXCEPTION: ALIGNMENT CHECK (#AC)\n"@
            + "Error code: "@
            + hex_text(error_code as int)
            + "\n"@
            + frame.dump(),
{
    record(stats, EXC_ALIGNMENT_CHECK);
    let mut s: String = String::from_str("EXCEPTION: ALIGNMENT CHECK (#AC)\n");
    s.append("Error code: ");
    s.append(hex(error_code).as_str());
    s.append("\n");
    s.append(frame.text().as_str());
    Outcome::Panic(s)
}

/// Machine check: not survived.
pub fn machine_check_handler(stats: &mut Counters, frame: &Frame) -> (r: Outcome)
    requires
        frame.wf(),
    ensures
        final(stats)@ == recorded(old(stats)@, EXC_MACHINE_CHECK),
        r matches Outcome::Panic(s) && s@ == "EXCEPTION: MACHINE CHECK (#MC)\n"@
            + "This indicates unrecoverable hardware error.\n"@
            + "Consult MCi_STATUS MSRs for details.\n"@
            + frame.dump(),
{
    record(stats, EXC_MACHINE_CHECK);
    let mut s: String = String::from_str("EXCEPTION: MACHINE CHECK (#MC)\n");
    s.append("This indicates unrecoverable hardware error.\n");
    s.append("Consult MCi_STATUS MSRs for details.\n");
    s.append(frame.text().as_str());
    Outcome::Panic(s)
}

/// Floating-point exception of the vector unit: not survived.
pub fn simd_fp_handler(stats: &mut Counters, frame: &Frame) -> (r: Outcome)
    requires
        frame.wf(),
    ensures
        final(stats)@ == recorded(old(stats)@, EXC_SIMD_FP),
        r matches Outcome::Panic(s) && s@ == "EXCEPTION: SIMD FLOATING-POINT (#XM)\n"@
            + "Check MXCSR for specific condition.\n"@
            + frame.dump(),
{
    record(stats, EXC_SIMD_FP);
    let mut s: String = String::from_str("EXCEPTION: SIMD FLOATING-POINT (#XM)\n");
    s.append("Check MXCSR for specific condition.\n");
    s.append(frame.text().as_str());
    Outcome::Panic(s)
}

/// Virtualization exception: not survived.
pub fn virtualization_handler(stats: &mut Counters, frame: &Frame) -> (r: Outcome)
    requires
        frame.wf(),
    ensures
        final(stats)@ == recorded(old(stats)@, EXC_VIRTUALIZATION),
        r matches Outcome::Panic(s) && s@ == "EXCEPTION: VIRTUALIZATION (#VE)\n"@
            + "EPT violation — check VMCS for details.\n"@
            + frame.dump(),
{
    record(stats, EXC_VIRTUALIZATION);
    let mut s: String = String::from_str("EXCEPTION: VIRTUALIZATION (#VE)\n");
    s.append("EPT violation — check VMCS for details.\n");
    s.append(frame.text().as_str());
    Outcome::Panic(s)
}

/// Tells whether a step acknowledges an interrupt to a controller.
pub open spec fn acknowledges(step: Step) -> bool {
    step is EndOfInterrupt || step == Step::Write(MASTER_COMMAND, END_OF_INTERRUPT)
}

/// An interrupt is acknowledged once, after everything else was done for it. A device that
/// was not served yet would raise it again at once.
pub open spec fn acknowledged_last(steps: Seq<Step>) -> bool {
    &&& steps.len() > 0
    &&& acknowledges(steps.last())
    &&& forall|i: int| 0 <= i < steps.len() - 1 ==> !acknowledges(#[trigger] steps[i])
}

/// Timer: the registered handler runs, then the interrupt is acknowledged.
pub fn timer_handler(stats: &mut Counters) -> (steps: Vec<Step>)
    ensures
        final(stats)@ == recorded(old(stats)@, PIC_IRQ_TIMER),
        steps@ == seq![Step::Dispatch(0), Step::EndOfInterrupt(PIC_IRQ_TIMER)],
        acknowledged_last(steps@),
{
    record(stats, InterruptVector::Timer.as_u8());
    vec![Step::Dispatch(0), Step::EndOfInterrupt(InterruptVector::Timer.as_u8())]
}

/// Keyboard, with the byte that was read from [`PS2_DATA`]: gives what to print, and then
/// the registered handler runs and the interrupt is acknowledged.
pub fn keyboard_handler(stats: &mut Counters, keyboard: &mut Decoder, scancode: u8) -> (r: (
    Option<String>,
    Vec<Step>,
))
    ensures
        final(stats)@ == recorded(old(stats)@, PIC_IRQ_KEYBOARD),
        match r.0 {
            Some(s) => typed(bytes_given(*old(keyboard)), events_given(*old(keyboard)), scancode)
                == Some(s@),
            None => typed(bytes_given(*old(keyboard)), events_given(*old(keyboard)), scancode) is None,
        },
        bytes_given(*final(keyboard)) == bytes_given(*old(keyboard)).push(scancode),
        events_given(*final(keyboard)) == events_after(
            bytes_given(*old(keyboard)),
            events_given(*old(keyboard)),
            scancode,
        ),
        r.1@ == seq![Step::Dispatch(1), Step::EndOfInterrupt(PIC_IRQ_KEYBOARD)],
        acknowledged_last(r.1@),
{
    record(stats, InterruptVector::Keyboard.as_u8());
    let text = keyboard.feed(scancode);
    (text, vec![Step::Dispatch(1), Step::EndOfInterrupt(InterruptVector::Keyboard.as_u8())])
}

/// Last line of the master controller, with its in-service register: for a real interrupt
/// the registered handler runs and the interrupt is acknowledged, for a spurious one nothing
/// is done. It is counted either way.
pub fn spurious_master_handler(stats: &mut Counters, isr: u8) -> (steps: Vec<Step>)
    ensures
        final(stats)@ == recorded(old(stats)@, PIC_IRQ_LPT1),
        steps@ == (if register_bit(isr, 7) {
            seq![Step::Dispatch(7), Step::EndOfInterrupt(PIC_IRQ_LPT1)]
        } else {
            Seq::empty()
        }),
        register_bit(isr, 7) ==> acknowledged_last(steps@),
{
    let (was_real, mut steps) = eoi_if_not_spurious_master(isr);
    record(stats, InterruptVector::SpuriousMaster.as_u8());
    if was_real {
        steps.insert(0, Step::Dispatch(7));
    }
    assert(steps@ =~= (if register_bit(isr, 7) {
        seq![Step::Dispatch(7), Step::EndOfInterrupt(PIC_IRQ_LPT1)]
    } else {
        Seq::empty()
    }));
    steps
}

/// Clock: its register is read so that the next interrupt can come, the registered handler
/// runs, and the interrupt is acknowledged.
pub fn rtc_handler(stats: &mut Counters) -> (steps: Vec<Step>)
    ensures
        final(stats)@ == recorded(old(stats)@, PIC_IRQ_RTC),
        steps@ == seq![
            Step::Write(RTC_SELECT, RTC_REGISTER_C),
            Step::Read(RTC_DATA),
            Step::Dispatch(8),
            Step::EndOfInterrupt(PIC_IRQ_RTC),
        ],
        acknowledged_last(steps@),
{
    record(stats, InterruptVector::Rtc.as_u8());
    vec![
        Step::Write(RTC_SELECT, RTC_REGISTER_C),
        Step::Read(RTC_DATA),
        Step::Dispatch(8),
        Step::EndOfInterrupt(InterruptVector::Rtc.as_u8()),
    ]
}

/// Mouse: its byte is read so that the interrupt ends, the registered handler runs, and the
/// interrupt is acknowledged.
pub fn mouse_handler(stats: &mut Counters) -> (steps: Vec<Step>)
    ensures
        final(stats)@ == recorded(old(stats)@, PIC_IRQ_MOUSE),
        steps@ == seq![
            Step::Read(PS2_DATA),
            Step::Dispatch(12),
            Step::EndOfInterrupt(PIC_IRQ_MOUSE),
        ],
        acknowledged_last(steps@),
{
    record(stats, InterruptVector::Mouse.as_u8());
    vec![
        Step::Read(PS2_DATA),
        Step::Dispatch(12),
        Step::EndOfInterrupt(InterruptVector::Mouse.as_u8()),
    ]
}

/// First disk channel: the registered handler runs, then the interrupt is acknowledged.
pub fn ata_primary_handler(stats: &mut Counters) -> (steps: Vec<Step>)
    ensures
        final(stats)@ == recorded(old(stats)@, PIC_IRQ_ATA_PRIMARY),
        steps@ == seq![Step::Dispatch(14), Step::EndOfInterrupt(PIC_IRQ_ATA_PRIMARY)],
        acknowledged_last(steps@),
{
    record(stats, InterruptVector::AtaPrimary.as_u8());
    vec![Step::Dispatch(14), Step::EndOfInterrupt(InterruptVector::AtaPrimary.as_u8())]
}

/// Second disk channel, with the in-service register of the slave: for a real interrupt the
/// registered handler runs and the interrupt is acknowledged, a spurious one is acknowledged
/// to the master only.
pub fn ata_secondary_handler(stats: &mut Counters, isr: u8) -> (steps: Vec<Step>)
    ensures
        final(stats)@ == recorded(old(stats)@, PIC_IRQ_ATA_SECONDARY),
        steps@ == (if register_bit(isr, 7) {
            seq![Step::Dispatch(15), Step::EndOfInterrupt(PIC_IRQ_ATA_SECONDARY)]
        } else {
            seq![Step::Write(MASTER_COMMAND, END_OF_INTERRUPT)]
        }),
        acknowledged_last(steps@),
{
    record(stats, InterruptVector::AtaSecondary.as_u8());
    let (was_real, mut steps) = eoi_if_not_spurious_slave(isr);
    if was_real {
        steps.insert(0, Step::Dispatch(15));
    }
    assert(steps@ =~= (if register_bit(isr, 7) {
        seq![Step::Dispatch(15), Step::EndOfInterrupt(PIC_IRQ_ATA_SECONDARY)]
    } else {
        seq![Step::Write(MASTER_COMMAND, END_OF_INTERRUPT)]
    }));
    steps
}

/// An address is canonical exactly if the upper seventeen bits are all clear or all set.
pub proof fn law_canonical(a: u64)
    ensures
        canonical(a) <==> a / 0x8000_0000_0000 == 0 || a / 0x8000_0000_0000 == 0x1_ffff,
{
}

/// The long form of a frame is made of all it holds, each in its place.
pub proof fn law_dump(f: Frame)
    ensures
        f.dump() == frame_dump(
            f.instruction_pointer,
            f.code_segment,
            f.cpu_flags,
            f.stack_pointer,
            f.stack_segment,
        ),
        f.wf() <==> canonical(f.instruction_pointer) && canonical(f.stack_pointer),
{
}

/// The ports and registers of the devices that are served here.
pub proof fn law_device_ports()
    ensures
        PS2_DATA == 0x60,
        RTC_SELECT == 0x70,
        RTC_DATA == RTC_SELECT + 1,
        RTC_REGISTER_C == 0x0c,
{
}

/// The interrupt of a vector was served: it was counted there and nowhere else, and it ended in
/// a call of the handler that is registered for its line and its acknowledgement, in this
/// order, with no other call and no other acknowledgement.
pub open spec fn line_served(
    before: Seq<u64>,
    after: Seq<u64>,
    steps: Seq<Step>,
    vector: u8,
) -> bool {
    let n = steps.len() as int;
    &&& after == recorded(before, vector)
    &&& n >= 2
    &&& steps[n - 1] == Step::EndOfInterrupt(vector)
    &&& steps[n - 2] == Step::Dispatch((vector - 0x20) as u8)
    &&& forall|i: int|
        0 <= i < n - 2 ==> !(#[trigger] steps[i] is Dispatch) && !(steps[i] is EndOfInterrupt)
}

/// What answers vector 0x20 serves that vector.
pub proof fn law_timer(stats: &mut Counters, steps: Vec<Step>)
    requires
        call_ensures(timer_handler, (stats,), steps),
    ensures
        handler_named(entries(), 0x20, 0) == Some(Handler::Timer),
        line_served(old(stats)@, final(stats)@, steps@, 0x20),
{
    law_served(0x20);
}

/// What answers vector 0x28 serves that vector.
pub proof fn law_rtc(stats: &mut Counters, steps: Vec<Step>)
    requires
        call_ensures(rtc_handler, (stats,), steps),
    ensures
        handler_named(entries(), 0x28, 0) == Some(Handler::Rtc),
        line_served(old(stats)@, final(stats)@, steps@, 0x28),
{
    law_served(0x28);
}

/// What answers vector 0x2c serves that vector.
pub proof fn law_mouse(stats: &mut Counters, steps: Vec<Step>)
    requires
        call_ensures(mouse_handler, (stats,), steps),
    ensures
        handler_named(entries(), 0x2c, 0) == Some(Handler::Mouse),
        line_served(old(stats)@, final(stats)@, steps@, 0x2c),
{
    law_served(0x2c);
}

/// What answers vector 0x2e serves that vector.
pub proof fn law_ata_primary(stats: &mut Counters, steps: Vec<Step>)
    requires
        call_ensures(ata_primary_handler, (stats,), steps),
    ensures
        handler_named(entries(), 0x2e, 0) == Some(Handler::AtaPrimary),
        line_served(old(stats)@, final(stats)@, steps@, 0x2e),
{
    law_served(0x2e);
}

/// What answers vector 0x21 serves that vector, whatever was typed.
pub proof fn law_keyboard(
    stats: &mut Counters,
    keyboard: &mut Decoder,
    scancode: u8,
    r: (Option<String>, Vec<Step>),
)
    requires
        call_ensures(keyboard_handler, (stats, keyboard, scancode), r),
    ensures
        handler_named(entries(), 0x21, 0) == Some(Handler::Keyboard),
        line_served(old(stats)@, final(stats)@, r.1@, 0x21),
{
    law_served(0x21);
}

/// What answers vector 0x27 serves that vector if the interrupt is real, and otherwise counts
/// it and does nothing.
pub proof fn law_spurious_master(stats: &mut Counters, isr: u8, steps: Vec<Step>)
    requires
        call_ensures(spurious_master_handler, (stats, isr), steps),
    ensures
        handler_named(entries(), 0x27, 0) == Some(Handler::SpuriousMaster),
        isr >= 128 ==> line_served(old(stats)@, final(stats)@, steps@, 0x27),
        isr < 128 ==> steps@.len() == 0 && final(stats)@ == recorded(old(stats)@, 0x27),
{
    law_served(0x27);
    law_register_bit(isr);
}

/// What answers vector 0x2f serves that vector if the interrupt is real, and otherwise counts
/// it and acknowledges it to the master controller alone.
pub proof fn law_ata_secondary(stats: &mut Counters, isr: u8, steps: Vec<Step>)
    requires
        call_ensures(ata_secondary_handler, (stats, isr), steps),
    ensures
        handler_named(entries(), 0x2f, 0) == Some(Handler::AtaSecondary),
        isr >= 128 ==> line_served(old(stats)@, final(stats)@, steps@, 0x2f),
        isr < 128 ==> steps@ == seq![Step::Write(0x20, 0x20)] && final(stats)@ == recorded(
            old(stats)@,
            0x2f,
        ),
{
    law_served(0x2f);
    law_register_bit(isr);
}

/// What answers exception 0x00 counts that exception and no other, and the kernel stops.
pub proof fn law_divide_error(stats: &mut Counters, frame: &Frame, r: Outcome)
    requires
        call_ensures(divide_error_handler, (stats, frame), r),
    ensures
        handler_named(entries(), 0x00, 0) == Some(Handler::DivideError),
        final(stats)@ == recorded(old(stats)@, 0x00),
        r is Panic,
{
    law_served(0x00);
}

/// What answers exception 0x01 counts that exception and no other, and execution goes on.
pub proof fn law_debug(stats: &mut Counters, frame: &Frame, r: Outcome)
    requires
        call_ensures(debug_handler, (stats, frame), r),
    ensures
        handler_named(entries(), 0x01, 0) == Some(Handler::Debug),
        final(stats)@ == recorded(old(stats)@, 0x01),
        r is Print,
{
    law_served(0x01);
}

/// What answers exception 0x02 counts that exception and no other, and the kernel stops.
pub proof fn law_nmi(stats: &mut Counters, frame: &Frame, r: Outcome)
    requires
        call_ensures(nmi_handler, (stats, frame), r),
    ensures
        handler_named(entries(), 0x02, 0) == Some(Handler::Nmi),
        final(stats)@ == recorded(old(stats)@, 0x02),
        r is Panic,
{
    law_served(0x02);
}

/// What answers exception 0x03 counts that exception and no other, and execution goes on.
pub proof fn law_breakpoint(stats: &mut Counters, frame: &Frame, r: Outcome)
    requires
        call_ensures(breakpoint_handler, (stats, frame), r),
    ensures
        handler_named(entries(), 0x03, 0) == Some(Handler::Breakpoint),
        final(stats)@ == recorded(old(stats)@, 0x03),
        r is Print,
{
    law_served(0x03);
}

/// What answers exception 0x04 counts that exception and no other, and execution goes on.
pub proof fn law_overflow(stats: &mut Counters, frame: &Frame, r: Outcome)
    requires
        call_ensures(overflow_handler, (stats, frame), r),
    ensures
        handler_named(entries(), 0x04, 0) == Some(Handler::Overflow),
        final(stats)@ == recorded(old(stats)@, 0x04),
        r is Print,
{
    law_served(0x04);
}

/// What answers exception 0x05 counts that exception and no other, and the kernel stops.
pub proof fn law_bound_range(stats: &mut Counters, frame: &Frame, r: Outcome)
    requires
        call_ensures(bound_range_handler, (stats, frame), r),
    ensures
        handler_named(entries(), 0x05, 0) == Some(Handler::BoundRange),
        final(stats)@ == recorded(old(stats)@, 0x05),
        r is Panic,
{
    law_served(0x05);
}

/// What answers exception 0x06 counts that exception and no other, and the kernel stops.
pub proof fn law_invalid_opcode(stats: &mut Counters, frame: &Frame, r: Outcome)
    requires
        call_ensures(invalid_opcode_handler, (stats, frame), r),
    ensures
        handler_named(entries(), 0x06, 0) == Some(Handler::InvalidOpcode),
        final(stats)@ == recorded(old(stats)@, 0x06),
        r is Panic,
{
    law_served(0x06);
}

/// What answers exception 0x07 counts that exception and no other, and the kernel stops.
pub proof fn law_device_not_available(stats: &mut Counters, frame: &Frame, r: Outcome)
    requires
        call_ensures(device_not_available_handler, (stats, frame), r),
    ensures
        handler_named(entries(), 0x07, 0) == Some(Handler::DeviceNotAvailable),
        final(stats)@ == recorded(old(stats)@, 0x07),
        r is Panic,
{
    law_served(0x07);
}

/// What answers exception 0x08 counts that exception and no other, and the kernel stops.
pub proof fn law_double_fault(stats: &mut Counters, frame: &Frame, r: Outcome)
    requires
        call_ensures(double_fault_handler, (stats, frame), r),
    ensures
        handler_named(entries(), 0x08, 0) == Some(Handler::DoubleFault),
        final(stats)@ == recorded(old(stats)@, 0x08),
        r is Panic,
{
    law_served(0x08);
}

/// What answers exception 0x10 counts that exception and no other, and the kernel stops.
pub proof fn law_x87_fp(stats: &mut Counters, frame: &Frame, r: Outcome)
    requires
        call_ensures(x87_fp_handler, (stats, frame), r),
    ensures
        handler_named(entries(), 0x10, 0) == Some(Handler::X87Fp),
        final(stats)@ == recorded(old(stats)@, 0x10),
        r is Panic,
{
    law_served(0x10);
}

/// What answers exception 0x12 counts that exception and no other, and the kernel stops.
pub proof fn law_machine_check(stats: &mut Counters, frame: &Frame, r: Outcome)
    requires
        call_ensures(machine_check_handler, (stats, frame), r),
    ensures
        handler_named(entries(), 0x12, 0) == Some(Handler::MachineCheck),
        final(stats)@ == recorded(old(stats)@, 0x12),
        r is Panic,
{
    law_served(0x12);
}

/// What answers exception 0x13 counts that exception and no other, and the kernel stops.
pub proof fn law_simd_fp(stats: &mut Counters, frame: &Frame, r: Outcome)
    requires
        call_ensures(simd_fp_handler, (stats, frame), r),
    ensures
        handler_named(entries(), 0x13, 0) == Some(Handler::SimdFp),
        final(stats)@ == recorded(old(stats)@, 0x13),
        r is Panic,
{
    law_served(0x13);
}

/// What answers exception 0x14 counts that exception and no other, and the kernel stops.
pub proof fn law_virtualization(stats: &mut Counters, frame: &Frame, r: Outcome)
    requires
        call_ensures(virtualization_handler, (stats, frame), r),
    ensures
        handler_named(entries(), 0x14, 0) == Some(Handler::Virtualization),
        final(stats)@ == recorded(old(stats)@, 0x14),
        r is Panic,
{
    law_served(0x14);
}

/// What answers exception 0x0a counts that exception and no other, and the kernel stops.
pub proof fn law_invalid_tss(stats: &mut Counters, frame: &Frame, error_code: u64, r: Outcome)
    requires
        call_ensures(invalid_tss_handler, (stats, frame, error_code), r),
    ensures
        handler_named(entries(), 0x0a, 0) == Some(Handler::InvalidTss),
        final(stats)@ == recorded(old(stats)@, 0x0a),
        r is Panic,
{
    law_served(0x0a);
}

/// What answers exception 0x0b counts that exception and no other, and the kernel stops.
pub proof fn law_segment_not_present(stats: &mut Counters, frame: &Frame, error_code: u64, r: Outcome)
    requires
        call_ensures(segment_not_present_handler, (stats, frame, error_code), r),
    ensures
        handler_named(entries(), 0x0b, 0) == Some(Handler::SegmentNotPresent),
        final(stats)@ == recorded(old(stats)@, 0x0b),
        r is Panic,
{
    law_served(0x0b);
}

/// What answers exception 0x0c counts that exception and no other, and the kernel stops.
pub proof fn law_stack_segment(stats: &mut Counters, frame: &Frame, error_code: u64, r: Outcome)
    requires
        call_ensures(stack_segment_handler, (stats, frame, error_code), r),
    ensures
        handler_named(entries(), 0x0c, 0) == Some(Handler::StackSegment),
        final(stats)@ == recorded(old(stats)@, 0x0c),
        r is Panic,
{
    law_served(0x0c);
}

/// What answers exception 0x0d counts that exception and no other, and the kernel stops.
pub proof fn law_general_protection(stats: &mut Counters, frame: &Frame, error_code: u64, r: Outcome)
    requires
        call_ensures(general_protection_handler, (stats, frame, error_code), r),
    ensures
        handler_named(entries(), 0x0d, 0) == Some(Handler::GeneralProtection),
        final(stats)@ == recorded(old(stats)@, 0x0d),
        r is Panic,
{
    law_served(0x0d);
}

/// What answers exception 0x11 counts that exception and no other, and the kernel stops.
pub proof fn law_alignment_check(stats: &mut Counters, frame: &Frame, error_code: u64, r: Outcome)
    requires
        call_ensures(alignment_check_handler, (stats, frame, error_code), r),
    ensures
        handler_named(entries(), 0x11, 0) == Some(Handler::AlignmentCheck),
        final(stats)@ == recorded(old(stats)@, 0x11),
        r is Panic,
{
    law_served(0x11);
}

/// What answers exception 0x0e counts that exception and no other, and the kernel stops.
pub proof fn law_page_fault(
    stats: &mut Counters,
    frame: &Frame,
    error_code: u64,
    address: u64,
    r: Outcome,
)
    requires
        call_ensures(page_fault_handler, (stats, frame, error_code, address), r),
    ensures
        handler_named(entries(), 0x0e, 0) == Some(Handler::PageFault),
        final(stats)@ == recorded(old(stats)@, 0x0e),
        r is Panic,
{
    law_served(0x0e);
}

} // verus!
