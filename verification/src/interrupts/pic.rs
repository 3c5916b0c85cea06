//! The two chained interrupt controllers: masks, and which interrupts are acknowledged.
//!
//! A controller that withdrew a request while it was being acknowledged reports a spurious
//! interrupt on its last line. One of the master is not acknowledged at all; one of the
//! slave is acknowledged to the master only, whose cascade line did fire. The in-service
//! register tells a spurious interrupt from a real one.

use crate::interrupts::vectors::{PIC_IRQ_ATA_SECONDARY, PIC_IRQ_LPT1};
use vstd::prelude::*;

verus! {

/// Command port of the master controller.
pub const MASTER_COMMAND: u16 = 0x20;

/// Data port of the master controller.
pub const MASTER_DATA: u16 = 0x21;

/// Command port of the slave controller.
pub const SLAVE_COMMAND: u16 = 0xa0;

/// Data port of the slave controller.
pub const SLAVE_DATA: u16 = 0xa1;

/// Asks a controller for its in-service register.
pub const READ_IN_SERVICE: u8 = 0x0b;

/// Tells a controller that an interrupt was handled.
pub const END_OF_INTERRUPT: u8 = 0x20;

/// One thing that the machine is to do.
#[derive(Debug, Clone, Copy, PartialEq, Eq, Structural)]
pub enum Step {
    /// Read a byte from a port.
    Read(u16),
    /// Write a byte to a port.
    Write(u16, u8),
    /// Call the handler that is registered for a line.
    Dispatch(u8),
    /// Acknowledge the interrupt of a vector.
    EndOfInterrupt(u8),
}

/// Bit `i` of a register.
pub open spec fn register_bit(r: u8, i: u8) -> bool {
    (r >> i) & 1 == 1
}

/// The data port that the mask of line `irq` is kept behind.
pub open spec fn mask_port_of(irq: int) -> u16 {
    if irq < 8 {
        MASTER_DATA
    } else {
        SLAVE_DATA
    }
}

/// The bit of line `irq` in the mask of its controller.
pub open spec fn mask_bit_of(irq: int) -> u8 {
    if irq < 8 {
        irq as u8
    } else {
        (irq - 8) as u8
    }
}

/// `after` is `before` with bit `i` set to `set`.
pub open spec fn one_bit_set(before: u8, after: u8, i: u8, set: bool) -> bool {
    &&& register_bit(after, i) == set
    &&& forall|j: u8|
        j < 8 && j != i ==> #[trigger] register_bit(after, j) == register_bit(before, j)
}

proof fn lemma_bit_on(r: u8, i: u8, j: u8)
    by (bit_vector)
    requires
        i < 8,
        j < 8,
    ensures
        register_bit(r | (1u8 << i), j) == (register_bit(r, j) || i == j),
{
}

proof fn lemma_bit_off(r: u8, i: u8, j: u8)
    by (bit_vector)
    requires
        i < 8,
        j < 8,
    ensures
        register_bit(r & !(1u8 << i), j) == (register_bit(r, j) && i != j),
{
}

proof fn lemma_same_bits(r: u8, s: u8)
    by (bit_vector)
    requires
        register_bit(r, 0) == register_bit(s, 0),
        register_bit(r, 1) == register_bit(s, 1),
        register_bit(r, 2) == register_bit(s, 2),
        register_bit(r, 3) == register_bit(s, 3),
        register_bit(r, 4) == register_bit(s, 4),
        register_bit(r, 5) == register_bit(s, 5),
        register_bit(r, 6) == register_bit(s, 6),
        register_bit(r, 7) == register_bit(s, 7),
    ensures
        r == s,
{
}

/// The data port that the mask of line `irq` is kept behind.
pub fn mask_port(irq: u8) -> (port: u16)
    requires
        irq < 16,
    ensures
        port == mask_port_of(irq as int),
{
    if irq < 8 {
        MASTER_DATA
    } else {
        SLAVE_DATA
    }
}

/// What to write so that line `irq` is masked, where `mask` was read from its port.
pub fn mask_irq(irq: u8, mask: u8) -> (step: Step)
    requires
        irq < 16,
    ensures
        step matches Step::Write(port, after) && port == mask_port_of(irq as int) && one_bit_set(
            mask,
            after,
            mask_bit_of(irq as int),
            true,
        ),
{
    let bit: u8 = if irq < 8 {
        irq
    } else {
        irq - 8
    };
    proof {
        lemma_bit_on(mask, bit, bit);
        assert forall|j: u8| j < 8 && j != bit implies #[trigger] register_bit(
            mask | (1u8 << bit),
            j,
        ) == register_bit(mask, j) by {
            lemma_bit_on(mask, bit, j);
        }
    }
    Step::Write(mask_port(irq), mask | (1u8 << bit))
}

/// What to write so that line `irq` is delivered, where `mask` was read from its port.
pub fn unmask_irq(irq: u8, mask: u8) -> (step: Step)
    requires
        irq < 16,
    ensures
        step matches Step::Write(port, after) && port == mask_port_of(irq as int) && one_bit_set(
            mask,
            after,
            mask_bit_of(irq as int),
            false,
        ),
{
    let bit: u8 = if irq < 8 {
        irq
    } else {
        irq - 8
    };
    proof {
        lemma_bit_off(mask, bit, bit);
        assert forall|j: u8| j < 8 && j != bit implies #[trigger] register_bit(
            mask & !(1u8 << bit),
            j,
        ) == register_bit(mask, j) by {
            lemma_bit_off(mask, bit, j);
        }
    }
    Step::Write(mask_port(irq), mask & !(1u8 << bit))
}

/// Masking a line that was delivered and unmasking it again gives the mask back that there
/// was.
pub proof fn law_mask_round_trip(before: u8, masked: u8, after: u8, i: u8)
    requires
        i < 8,
        !register_bit(before, i),
        one_bit_set(before, masked, i, true),
        one_bit_set(masked, after, i, false),
    ensures
        after == before,
{
    assert forall|j: u8| j < 8 implies #[trigger] register_bit(after, j) == register_bit(before, j) by {
        if j != i {
            assert(register_bit(masked, j) == register_bit(before, j));
        }
    }
    lemma_same_bits(after, before);
}

/// Both masks as one number, that of the slave in the high byte.
pub fn read_imr(lo: u8, hi: u8) -> (imr: u16)
    ensures
        imr == hi * 256 + lo,
{
    let l: u16 = lo as u16;
    let h: u16 = hi as u16;
    assert(h << 8u16 | l == h * 256 + l) by (bit_vector)
        requires
            l < 256,
            h < 256,
    ;
    h << 8u16 | l
}

/// Tells whether bit `bit` of an in-service register is set.
pub fn isr_bit(isr: u8, bit: u8) -> (set: bool)
    requires
        bit < 8,
    ensures
        set == register_bit(isr, bit),
{
    assert((isr & (1u8 << bit) != 0) == register_bit(isr, bit)) by (bit_vector)
        requires
            bit < 8,
    ;
    isr & (1u8 << bit) != 0
}

/// What to do to read the in-service register of the master.
pub fn query_master() -> (steps: Vec<Step>)
    ensures
        steps@ == seq![Step::Write(MASTER_COMMAND, READ_IN_SERVICE), Step::Read(MASTER_COMMAND)],
{
    vec![Step::Write(MASTER_COMMAND, READ_IN_SERVICE), Step::Read(MASTER_COMMAND)]
}

/// What to do to read the in-service register of the slave.
pub fn query_slave() -> (steps: Vec<Step>)
    ensures
        steps@ == seq![Step::Write(SLAVE_COMMAND, READ_IN_SERVICE), Step::Read(SLAVE_COMMAND)],
{
    vec![Step::Write(SLAVE_COMMAND, READ_IN_SERVICE), Step::Read(SLAVE_COMMAND)]
}

/// What to do to acknowledge the interrupt of `vector`.
pub fn end_of_interrupt(vector: u8) -> (step: Step)
    ensures
        step == Step::EndOfInterrupt(vector),
{
    Step::EndOfInterrupt(vector)
}

/// Whether an interrupt on the last line of the master is real, by its in-service register,
/// and what to do: a spurious one is not acknowledged.
pub fn eoi_if_not_spurious_master(isr: u8) -> (r: (bool, Vec<Step>))
    ensures
        r.0 == register_bit(isr, 7),
        r.1@ == (if r.0 {
            seq![Step::EndOfInterrupt(PIC_IRQ_LPT1)]
        } else {
            Seq::empty()
        }),
{
    if isr_bit(isr, 7) {
        (true, vec![end_of_interrupt(PIC_IRQ_LPT1)])
    } else {
        (false, Vec::new())
    }
}

/// Whether an interrupt on the last line of the slave is real, by its in-service register,
/// and what to do: a spurious one is acknowledged to the master only.
pub fn eoi_if_not_spurious_slave(isr: u8) -> (r: (bool, Vec<Step>))
    ensures
        r.0 == register_bit(isr, 7),
        r.1@ == seq![
            if r.0 {
                Step::EndOfInterrupt(PIC_IRQ_ATA_SECONDARY)
            } else {
                Step::Write(MASTER_COMMAND, END_OF_INTERRUPT)
            },
        ],
{
    if isr_bit(isr, 7) {
        (true, vec![end_of_interrupt(PIC_IRQ_ATA_SECONDARY)])
    } else {
        (false, vec![Step::Write(MASTER_COMMAND, END_OF_INTERRUPT)])
    }
}

/// Bit `i` of a register is digit `i` of its number in base two.
pub proof fn law_register_bit(r: u8)
    ensures
        register_bit(r, 0) == (r % 2 == 1),
        register_bit(r, 1) == (r / 2 % 2 == 1),
        register_bit(r, 2) == (r / 4 % 2 == 1),
        register_bit(r, 3) == (r / 8 % 2 == 1),
        register_bit(r, 4) == (r / 16 % 2 == 1),
        register_bit(r, 5) == (r / 32 % 2 == 1),
        register_bit(r, 6) == (r / 64 % 2 == 1),
        register_bit(r, 7) == (r / 128 % 2 == 1),
{
    assert(register_bit(r, 0) == (r % 2 == 1) && register_bit(r, 1) == (r / 2 % 2 == 1)
        && register_bit(r, 2) == (r / 4 % 2 == 1) && register_bit(r, 3) == (r / 8 % 2 == 1)
        && register_bit(r, 4) == (r / 16 % 2 == 1) && register_bit(r, 5) == (r / 32 % 2 == 1)
        && register_bit(r, 6) == (r / 64 % 2 == 1) && register_bit(r, 7) == (r / 128 % 2 == 1))
        by (bit_vector);
}

/// The first eight lines are masked at the master and the others at the slave, each by the bit
/// of its place there; so that no two lines share a bit.
pub proof fn law_mask_lines(irq: int, other: int)
    requires
        0 <= irq < 16,
        0 <= other < 16,
    ensures
        mask_port_of(irq) == 0x21 <==> irq < 8,
        mask_port_of(irq) == 0xa1 <==> irq >= 8,
        mask_bit_of(irq) == irq % 8,
        irq != other ==> mask_port_of(irq) != mask_port_of(other) || mask_bit_of(irq)
            != mask_bit_of(other),
{
}

/// Each controller has its data port behind its command port, and the slave is apart from the
/// master.
pub proof fn law_ports()
    ensures
        MASTER_COMMAND == 0x20,
        MASTER_DATA == MASTER_COMMAND + 1,
        SLAVE_COMMAND == 0xa0,
        SLAVE_DATA == SLAVE_COMMAND + 1,
        READ_IN_SERVICE == 0x0b,
        END_OF_INTERRUPT == 0x20,
{
}

/// Masking a line and unmasking it again, with what was written read back in between, goes to
/// one port, that of its controller, and leaves the mask that there was.
pub proof fn law_mask_unmask(irq: u8, mask: u8, masked: Step, unmasked: Step)
    requires
        irq < 16,
        !register_bit(mask, (irq % 8) as u8),
        call_ensures(mask_irq, (irq, mask), masked),
        masked is Write,
        call_ensures(unmask_irq, (irq, masked->Write_1), unmasked),
    ensures
        masked->Write_0 == (if irq < 8 {
            0x21u16
        } else {
            0xa1u16
        }),
        register_bit(masked->Write_1, (irq % 8) as u8),
        unmasked == Step::Write(masked->Write_0, mask),
{
    law_mask_lines(irq as int, irq as int);
    law_mask_round_trip(mask, masked->Write_1, unmasked->Write_1, (irq % 8) as u8);
}

/// Both masks can be told from the number that holds them.
pub proof fn law_imr(lo: u8, hi: u8, imr: u16)
    requires
        call_ensures(read_imr, (lo, hi), imr),
    ensures
        imr % 256 == lo,
        imr / 256 == hi,
{
}

/// An interrupt on the last line is real exactly if the top bit of the in-service register is
/// set. A real one is acknowledged by its vector; a spurious one of the slave only to the
/// master, and one of the master not at all.
pub proof fn law_spurious(isr: u8, master: (bool, Vec<Step>), slave: (bool, Vec<Step>))
    requires
        call_ensures(eoi_if_not_spurious_master, (isr,), master),
        call_ensures(eoi_if_not_spurious_slave, (isr,), slave),
    ensures
        master.0 <==> isr >= 128,
        slave.0 <==> isr >= 128,
        isr >= 128 ==> master.1@ == seq![Step::EndOfInterrupt(0x27)],
        isr < 128 ==> master.1@.len() == 0,
        isr >= 128 ==> slave.1@ == seq![Step::EndOfInterrupt(0x2f)],
        isr < 128 ==> slave.1@ == seq![Step::Write(0x20, 0x20)],
{
    law_register_bit(isr);
}

} // verus!
