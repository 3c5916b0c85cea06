//! The local interrupt controller of a core.

use crate::interrupts::pic::{Step, MASTER_DATA, SLAVE_DATA};
use vstd::prelude::*;

verus! {

/// Where the registers lie in physical memory, unless the firmware says otherwise.
pub const LOCAL_APIC_DEFAULT_BASE: u64 = 0xfee0_0000;

/// Offset of the identity register.
pub const APIC_ID: u32 = 0x020;

/// Offset of the version register.
pub const APIC_VERSION: u32 = 0x030;

/// Offset of the register that ends an interrupt.
pub const APIC_EOI: u32 = 0x0b0;

/// Offset of the register for the spurious vector.
pub const APIC_SPURIOUS: u32 = 0x0f0;

/// Offset of the low half of the command register.
pub const APIC_ICR_LO: u32 = 0x300;

/// Offset of the high half of the command register.
pub const APIC_ICR_HI: u32 = 0x310;

/// Offset of the timer entry.
pub const APIC_LVT_TIMER: u32 = 0x320;

/// Offset of the initial count of the timer.
pub const APIC_TIMER_INIT: u32 = 0x380;

/// Offset of the divider of the timer.
pub const APIC_TIMER_DIVIDE: u32 = 0x3e0;

/// Tells from the features that the processor reports whether it has a local controller.
pub fn apic_supported(features: u32) -> (b: bool)
    ensures
        b == ((features >> 9u32) & 1 == 1),
{
    assert((features & (1u32 << 9u32) != 0) == ((features >> 9u32) & 1 == 1)) by (bit_vector);
    features & (1u32 << 9u32) != 0
}

/// What to do to mask every line of both chained controllers.
pub fn disable_pic() -> (steps: Vec<Step>)
    ensures
        steps@ == seq![Step::Write(MASTER_DATA, 0xff), Step::Write(SLAVE_DATA, 0xff)],
{
    vec![Step::Write(MASTER_DATA, 0xff), Step::Write(SLAVE_DATA, 0xff)]
}

/// One value for one register.
#[derive(Debug, Clone, Copy, PartialEq, Eq, Structural)]
pub struct RegisterWrite {
    /// Offset of the register.
    pub offset: u32,
    /// The value.
    pub value: u32,
}

/// The registers of one core, mapped at an address.
pub struct LocalApic {
    base: u64,
}

impl LocalApic {
    /// Address that the registers are mapped at.
    pub closed spec fn base(&self) -> u64 {
        self.base
    }

    /// The registers mapped at `virtual_base`.
    pub fn new(virtual_base: u64) -> (a: Self)
        ensures
            a.base() == virtual_base,
    {
        LocalApic { base: virtual_base }
    }

    /// Address of the register at `offset`.
    pub fn register(&self, offset: u32) -> (addr: u64)
        requires
            self.base() + offset <= u64::MAX,
        ensures
            addr == self.base() + offset / 4 * 4,
    {
        self.base + (offset / 4 * 4) as u64
    }

    /// What to write to switch the controller on with `spurious_vector`.
    pub fn init(&self, spurious_vector: u8) -> (w: RegisterWrite)
        ensures
            w.offset == APIC_SPURIOUS,
            w.value == 256 + spurious_vector,
    {
        let v: u32 = spurious_vector as u32;
        assert((1u32 << 8u32) | v == 256 + v) by (bit_vector)
            requires
                v < 256,
        ;
        RegisterWrite { offset: APIC_SPURIOUS, value: (1u32 << 8u32) | v }
    }

    /// What to write to end an interrupt.
    pub fn end_of_interrupt(&self) -> (w: RegisterWrite)
        ensures
            w == (RegisterWrite { offset: APIC_EOI, value: 0 }),
    {
        RegisterWrite { offset: APIC_EOI, value: 0 }
    }

    /// The identity of the core, from the identity register.
    pub fn id(&self, register: u32) -> (id: u8)
        ensures
            id == register / 0x100_0000,
    {
        let top: u32 = (register >> 24u32) & 0xff;
        assert(top == register / 0x100_0000 && top < 256) by (bit_vector)
            requires
                top == (register >> 24u32) & 0xff,
        ;
        top as u8
    }

    /// The version, from the version register.
    pub fn version(&self, register: u32) -> (v: u32)
        ensures
            v == register,
    {
        register
    }

    /// What to write, in order, so that the timer raises `vector` when it has counted down
    /// from `initial`, once or again and again.
    pub fn configure_timer(&self, vector: u8, initial: u32, divide: u32, periodic: bool) -> (w: Vec<
        RegisterWrite,
    >)
        ensures
            w@ == seq![
                RegisterWrite { offset: APIC_TIMER_DIVIDE, value: divide },
                RegisterWrite {
                    offset: APIC_LVT_TIMER,
                    value: (vector + (if periodic {
                        0x2_0000int
                    } else {
                        0
                    })) as u32,
                },
                RegisterWrite { offset: APIC_TIMER_INIT, value: initial },
            ],
    {
        let v: u32 = vector as u32;
        assert((1u32 << 17u32) | v == 0x2_0000 + v) by (bit_vector)
            requires
                v < 256,
        ;
        let lvt: u32 = if periodic {
            (1u32 << 17u32) | v
        } else {
            v
        };
        vec![
            RegisterWrite { offset: APIC_TIMER_DIVIDE, value: divide },
            RegisterWrite { offset: APIC_LVT_TIMER, value: lvt },
            RegisterWrite { offset: APIC_TIMER_INIT, value: initial },
        ]
    }

    /// What to write, in order, to send `vector` to the core `dest`: the command goes out
    /// with the second write.
    pub fn send_ipi(&self, dest: u8, vector: u8) -> (w: Vec<RegisterWrite>)
        ensures
            w@ == seq![
                RegisterWrite { offset: APIC_ICR_HI, value: (dest * 0x100_0000) as u32 },
                RegisterWrite { offset: APIC_ICR_LO, value: (vector + 0x4000) as u32 },
            ],
    {
        let d: u32 = dest as u32;
        let v: u32 = vector as u32;
        assert(d << 24u32 == d * 0x100_0000) by (bit_vector)
            requires
                d < 256,
        ;
        assert(v | (1u32 << 14u32) == v + 0x4000) by (bit_vector)
            requires
                v < 256,
        ;
        vec![
            RegisterWrite { offset: APIC_ICR_HI, value: d << 24u32 },
            RegisterWrite { offset: APIC_ICR_LO, value: v | (1u32 << 14u32) },
        ]
    }
}

/// The registers lie at different multiples of sixteen below a page.
pub proof fn law_registers()
    ensures
        LOCAL_APIC_DEFAULT_BASE == 0xfee0_0000,
        APIC_ID == 0x20,
        APIC_VERSION == 0x30,
        APIC_EOI == 0xb0,
        APIC_SPURIOUS == 0xf0,
        APIC_ICR_LO == 0x300,
        APIC_ICR_HI == APIC_ICR_LO + 0x10,
        APIC_LVT_TIMER == 0x320,
        APIC_TIMER_INIT == 0x380,
        APIC_TIMER_DIVIDE == 0x3e0,
{
}

/// What is written to send an interrupt says whom it is for and which vector it raises: the
/// destination first, in the top byte, and then the command, which sends it.
pub proof fn law_ipi(apic: &LocalApic, dest: u8, vector: u8, w: Vec<RegisterWrite>)
    requires
        call_ensures(LocalApic::send_ipi, (apic, dest, vector), w),
    ensures
        w@.len() == 2,
        w@[0].offset == 0x310,
        w@[0].value / 0x100_0000 == dest,
        w@[0].value % 0x100_0000 == 0,
        w@[1].offset == 0x300,
        w@[1].value % 0x100 == vector,
        w@[1].value / 0x100 == 0x40,
{
}

/// What is written to start the timer says what to divide by, which vector it raises and
/// whether it does so again and again, and last, which starts it, what to count from.
pub proof fn law_timer(
    apic: &LocalApic,
    vector: u8,
    initial: u32,
    divide: u32,
    periodic: bool,
    w: Vec<RegisterWrite>,
)
    requires
        call_ensures(LocalApic::configure_timer, (apic, vector, initial, divide, periodic), w),
    ensures
        w@.len() == 3,
        w@[0] == (RegisterWrite { offset: 0x3e0, value: divide }),
        w@[1].offset == 0x320,
        w@[1].value % 0x100 == vector,
        w@[1].value / 0x100 == (if periodic {
            0x200int
        } else {
            0
        }),
        w@[2] == (RegisterWrite { offset: 0x380, value: initial }),
{
}

/// What is written to switch the controller on holds the vector and the switch.
pub proof fn law_switched_on(apic: &LocalApic, vector: u8, w: RegisterWrite)
    requires
        call_ensures(LocalApic::init, (apic, vector), w),
    ensures
        w.offset == 0xf0,
        w.value % 0x100 == vector,
        w.value / 0x100 == 1,
{
}

/// The identity of a core is the top byte of its register, which it can be told from whatever
/// the other bytes hold.
pub proof fn law_id(apic: &LocalApic, register: u32, id: u8)
    requires
        call_ensures(LocalApic::id, (apic, register), id),
    ensures
        id * 0x100_0000 <= register < (id + 1) * 0x100_0000,
{
}

} // verus!
