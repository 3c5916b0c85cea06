//! Numbers of the interrupt vectors.
//!
//! The first thirty-two vectors are CPU exceptions. The sixteen after them carry the lines
//! of the two interrupt controllers; the rest are free.

use vstd::prelude::*;

verus! {

/// Divide error; no error code.
pub const EXC_DIVIDE_ERROR: u8 = 0x00;

/// Debug exception; no error code.
pub const EXC_DEBUG: u8 = 0x01;

/// Non-maskable interrupt; no error code.
pub const EXC_NMI: u8 = 0x02;

/// Breakpoint trap; no error code.
pub const EXC_BREAKPOINT: u8 = 0x03;

/// Overflow trap; no error code.
pub const EXC_OVERFLOW: u8 = 0x04;

/// Bound range exceeded; no error code.
pub const EXC_BOUND_RANGE: u8 = 0x05;

/// Invalid opcode; no error code.
pub const EXC_INVALID_OPCODE: u8 = 0x06;

/// Device not available; no error code.
pub const EXC_DEVICE_NOT_AVAILABLE: u8 = 0x07;

/// Double fault; the error code is zero.
pub const EXC_DOUBLE_FAULT: u8 = 0x08;

/// Invalid task state segment; the error code is a selector.
pub const EXC_INVALID_TSS: u8 = 0x0a;

/// Segment not present; the error code is a selector.
pub const EXC_SEGMENT_NOT_PRESENT: u8 = 0x0b;

/// Stack-segment fault; the error code is a selector or zero.
pub const EXC_STACK_SEGMENT: u8 = 0x0c;

/// General protection fault; the error code is a selector or zero.
pub const EXC_GENERAL_PROTECTION: u8 = 0x0d;

/// Page fault; the error code holds flags.
pub const EXC_PAGE_FAULT: u8 = 0x0e;

/// Floating-point exception of the x87 unit; no error code.
pub const EXC_X87_FP: u8 = 0x10;

/// Alignment check; the error code is zero.
pub const EXC_ALIGNMENT_CHECK: u8 = 0x11;

/// Machine check; no error code.
pub const EXC_MACHINE_CHECK: u8 = 0x12;

/// Floating-point exception of the vector unit; no error code.
pub const EXC_SIMD_FP: u8 = 0x13;

/// Virtualization exception; no error code.
pub const EXC_VIRTUALIZATION: u8 = 0x14;

/// Control protection exception; has an error code.
pub const EXC_CONTROL_PROTECTION: u8 = 0x15;

/// Hypervisor injection exception; no error code.
pub const EXC_HYPERVISOR_INJECTION: u8 = 0x1c;

/// Hypervisor communication exception; has an error code.
pub const EXC_VMM_COMM: u8 = 0x1d;

/// Security exception; has an error code.
pub const EXC_SECURITY: u8 = 0x1e;

/// Vector of the first line of the master controller.
pub const PIC_1_OFFSET: u8 = 0x20;

/// Vector of the first line of the slave controller.
pub const PIC_2_OFFSET: u8 = 0x28;

/// Line 0: interval timer.
pub const PIC_IRQ_TIMER: u8 = 0x20;

/// Line 1: keyboard.
pub const PIC_IRQ_KEYBOARD: u8 = 0x21;

/// Line 2: cascade from the slave controller.
pub const PIC_IRQ_CASCADE: u8 = 0x22;

/// Line 3: second serial port.
pub const PIC_IRQ_COM2: u8 = 0x23;

/// Line 4: first serial port.
pub const PIC_IRQ_COM1: u8 = 0x24;

/// Line 5: second printer port or sound card.
pub const PIC_IRQ_LPT2: u8 = 0x25;

/// Line 6: floppy disk controller.
pub const PIC_IRQ_FLOPPY: u8 = 0x26;

/// Line 7: first printer port, or a spurious interrupt of the master.
pub const PIC_IRQ_LPT1: u8 = 0x27;

/// Line 8: real-time clock.
pub const PIC_IRQ_RTC: u8 = 0x28;

/// Line 9: power management, or free.
pub const PIC_IRQ_ACPI: u8 = 0x29;

/// Line 10: free.
pub const PIC_IRQ_FREE1: u8 = 0x2a;

/// Line 11: free.
pub const PIC_IRQ_FREE2: u8 = 0x2b;

/// Line 12: mouse.
pub const PIC_IRQ_MOUSE: u8 = 0x2c;

/// Line 13: coprocessor.
pub const PIC_IRQ_FPU: u8 = 0x2d;

/// Line 14: first disk channel.
pub const PIC_IRQ_ATA_PRIMARY: u8 = 0x2e;

/// Line 15: second disk channel, or a spurious interrupt of the slave.
pub const PIC_IRQ_ATA_SECONDARY: u8 = 0x2f;

/// A vector with a hardware handler.
#[derive(Debug, Clone, Copy, PartialEq, Eq, Structural)]
pub enum InterruptVector {
    /// Interval timer.
    Timer,
    /// Keyboard.
    Keyboard,
    /// Spurious interrupts of the master controller.
    SpuriousMaster,
    /// Real-time clock.
    Rtc,
    /// Mouse.
    Mouse,
    /// First disk channel.
    AtaPrimary,
    /// Second disk channel, or a spurious interrupt of the slave controller.
    AtaSecondary,
}

/// The number of a vector.
pub open spec fn vector_number(v: InterruptVector) -> u8 {
    match v {
        InterruptVector::Timer => PIC_IRQ_TIMER,
        InterruptVector::Keyboard => PIC_IRQ_KEYBOARD,
        InterruptVector::SpuriousMaster => PIC_IRQ_LPT1,
        InterruptVector::Rtc => PIC_IRQ_RTC,
        InterruptVector::Mouse => PIC_IRQ_MOUSE,
        InterruptVector::AtaPrimary => PIC_IRQ_ATA_PRIMARY,
        InterruptVector::AtaSecondary => PIC_IRQ_ATA_SECONDARY,
    }
}

impl InterruptVector {
    /// The number of the vector.
    pub fn as_u8(self) -> (n: u8)
        ensures
            n == vector_number(self),
    {
        match self {
            InterruptVector::Timer => PIC_IRQ_TIMER,
            InterruptVector::Keyboard => PIC_IRQ_KEYBOARD,
            InterruptVector::SpuriousMaster => PIC_IRQ_LPT1,
            InterruptVector::Rtc => PIC_IRQ_RTC,
            InterruptVector::Mouse => PIC_IRQ_MOUSE,
            InterruptVector::AtaPrimary => PIC_IRQ_ATA_PRIMARY,
            InterruptVector::AtaSecondary => PIC_IRQ_ATA_SECONDARY,
        }
    }

    /// The number of the vector as an index.
    pub fn as_usize(self) -> (n: usize)
        ensures
            n == vector_number(self),
    {
        self.as_u8() as usize
    }

    /// Tells whether this is the vector of spurious interrupts of the master. Whether one of
    /// the second disk channel is spurious is for the slave controller to tell.
    pub fn is_spurious_master(self) -> (b: bool)
        ensures
            b == (self == InterruptVector::SpuriousMaster),
    {
        matches!(self, InterruptVector::SpuriousMaster)
    }
}

/// Every hardware vector lies in the sixteen vectors of the two controllers, no two share a
/// number, and the line of the vector is its distance from the first of them.
pub proof fn law_vectors(v: InterruptVector, w: InterruptVector)
    ensures
        PIC_1_OFFSET <= vector_number(v) < PIC_1_OFFSET + 16,
        vector_number(v) == vector_number(w) ==> v == w,
        PIC_2_OFFSET == PIC_1_OFFSET + 8,
{
}

/// The line of each hardware vector, counted from the first line of the master controller.
pub proof fn law_lines(v: InterruptVector)
    ensures
        vector_number(v) - 0x20 == (match v {
            InterruptVector::Timer => 0int,
            InterruptVector::Keyboard => 1,
            InterruptVector::SpuriousMaster => 7,
            InterruptVector::Rtc => 8,
            InterruptVector::Mouse => 12,
            InterruptVector::AtaPrimary => 14,
            InterruptVector::AtaSecondary => 15,
        }),
{
}

} // verus!
