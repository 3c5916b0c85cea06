//! Stacks that the processor switches to on the gravest exceptions.

use crate::interrupts::handlers::canonical;
use vstd::prelude::*;

verus! {

/// Stack slot of the double fault.
pub const DOUBLE_FAULT_IST_INDEX: u16 = 0;

/// Stack slot of the non-maskable interrupt.
pub const NMI_IST_INDEX: u16 = 1;

/// Stack slot of the machine check.
pub const MACHINE_CHECK_IST_INDEX: u16 = 2;

/// Bytes of each of these stacks.
pub const STACK_SIZE: u64 = 20480;

/// Slots that the processor offers.
pub const SLOTS: usize = 7;

/// A stack of [`STACK_SIZE`] bytes from `start` on has its top at an address that exists.
pub open spec fn has_top(start: u64) -> bool {
    start + STACK_SIZE <= u64::MAX && canonical((start + STACK_SIZE) as u64)
}

/// The table of stacks: each used slot holds the top of its stack, for stacks grow down. The
/// arguments are where the three stacks start.
pub fn stack_table(double_fault: u64, nmi: u64, machine_check: u64) -> (t: [u64; SLOTS])
    requires
        has_top(double_fault),
        has_top(nmi),
        has_top(machine_check),
    ensures
        t@ == seq![
            (double_fault + STACK_SIZE) as u64,
            (nmi + STACK_SIZE) as u64,
            (machine_check + STACK_SIZE) as u64,
            0,
            0,
            0,
            0,
        ],
{
    let t: [u64; SLOTS] = [
        double_fault + STACK_SIZE,
        nmi + STACK_SIZE,
        machine_check + STACK_SIZE,
        0,
        0,
        0,
        0,
    ];
    assert(t@ =~= seq![
        (double_fault + STACK_SIZE) as u64,
        (nmi + STACK_SIZE) as u64,
        (machine_check + STACK_SIZE) as u64,
        0,
        0,
        0,
        0,
    ]);
    t
}

/// Each slot gets its own stack: stacks that lie apart have different tops.
pub proof fn law_slots_apart(a: u64, b: u64)
    requires
        has_top(a),
        has_top(b),
        a + STACK_SIZE <= b || b + STACK_SIZE <= a,
    ensures
        a + STACK_SIZE != b + STACK_SIZE,
        DOUBLE_FAULT_IST_INDEX != NMI_IST_INDEX,
        DOUBLE_FAULT_IST_INDEX != MACHINE_CHECK_IST_INDEX,
        NMI_IST_INDEX != MACHINE_CHECK_IST_INDEX,
        DOUBLE_FAULT_IST_INDEX < SLOTS,
        NMI_IST_INDEX < SLOTS,
        MACHINE_CHECK_IST_INDEX < SLOTS,
{
}

/// A stack has a top exactly if the address behind its last byte exists and is canonical.
pub proof fn law_top(start: u64)
    ensures
        has_top(start) <==> start + 20480 < 0x8000_0000_0000 || 0xffff_8000_0000_0000 <= start
            + 20480 <= u64::MAX,
        STACK_SIZE == 5 * 4096,
{
}

/// Each of the gravest exceptions finds the top of its own stack in its slot, and the slots
/// that nothing uses are empty.
pub proof fn law_table(double_fault: u64, nmi: u64, machine_check: u64, t: [u64; SLOTS])
    requires
        has_top(double_fault),
        has_top(nmi),
        has_top(machine_check),
        call_ensures(stack_table, (double_fault, nmi, machine_check), t),
    ensures
        t@.len() == 7,
        t@[DOUBLE_FAULT_IST_INDEX as int] == double_fault + 20480,
        t@[NMI_IST_INDEX as int] == nmi + 20480,
        t@[MACHINE_CHECK_IST_INDEX as int] == machine_check + 20480,
        forall|i: int| 3 <= i < 7 ==> #[trigger] t@[i] == 0,
{
}

} // verus!
