//! Handlers that drivers register for the lines of the interrupt controllers.

use vstd::prelude::*;

verus! {

/// Number of lines.
pub const IRQ_COUNT: usize = 16;

/// One slot for the handler of each line.
pub struct HandlerTable<H: Copy> {
    handlers: [Option<H>; IRQ_COUNT],
}

impl<H: Copy> View for HandlerTable<H> {
    type V = Seq<Option<H>>;

    closed spec fn view(&self) -> Seq<Option<H>> {
        self.handlers@
    }
}

impl<H: Copy> HandlerTable<H> {
    /// A table without a handler.
    pub fn new() -> (t: Self)
        ensures
            t@ == Seq::new(IRQ_COUNT as nat, |i: int| Option::<H>::None),
    {
        let t = HandlerTable { handlers: [None;IRQ_COUNT] };
        assert(t@ =~= Seq::new(IRQ_COUNT as nat, |i: int| Option::<H>::None));
        t
    }

    /// There is a slot for each line.
    pub proof fn lemma_len(&self)
        ensures
            self@.len() == IRQ_COUNT,
    {
    }
}

/// Registers `handler` for line `irq`; fails where there is no such line or the line has a
/// handler.
pub fn register<H: Copy>(table: &mut HandlerTable<H>, irq: u8, handler: H) -> (r: Result<
    (),
    &'static str,
>)
    ensures
        match r {
            Ok(_) => {
                &&& irq < IRQ_COUNT
                &&& old(table)@[irq as int] is None
                &&& final(table)@ == old(table)@.update(irq as int, Some(handler))
            },
            Err(m) => {
                &&& irq >= IRQ_COUNT || old(table)@[irq as int] is Some
                &&& final(table)@ == old(table)@
                &&& m@ == (if irq >= IRQ_COUNT {
                    "IRQ number out of range (0–15 only)"@
                } else {
                    "IRQ slot already registered"@
                })
            },
        },
{
    if irq as usize >= IRQ_COUNT {
        return Err("IRQ number out of range (0–15 only)");
    }
    let i: usize = irq as usize;
    if table.handlers[i].is_some() {
        return Err("IRQ slot already registered");
    }
    table.handlers[i] = Some(handler);
    assert(table@ =~= old(table)@.update(irq as int, Some(handler)));
    Ok(())
}

/// Empties the slot of line `irq`; does nothing where there is no such line.
pub fn unregister<H: Copy>(table: &mut HandlerTable<H>, irq: u8)
    ensures
        final(table)@ == (if irq < IRQ_COUNT {
            old(table)@.update(irq as int, None)
        } else {
            old(table)@
        }),
{
    if irq as usize >= IRQ_COUNT {
        return;
    }
    table.handlers[irq as usize] = None;
    assert(table@ =~= old(table)@.update(irq as int, None));
}

/// The handler to call for line `irq`, if there is one.
pub fn dispatch<H: Copy>(table: &HandlerTable<H>, irq: u8) -> (h: Option<H>)
    requires
        irq < IRQ_COUNT,
    ensures
        h == table@[irq as int],
{
    table.handlers[irq as usize]
}

/// Registering a handler and taking it out again leaves the table as it was.
pub proof fn law_register_unregister<H: Copy>(slots: Seq<Option<H>>, irq: u8, handler: H)
    requires
        slots.len() == IRQ_COUNT,
        irq < IRQ_COUNT,
        slots[irq as int] is None,
    ensures
        slots.update(irq as int, Some(handler))[irq as int] == Some(handler),
        slots.update(irq as int, Some(handler)).update(irq as int, None) == slots,
{
    assert(slots.update(irq as int, Some(handler)).update(irq as int, None) =~= slots);
}

/// A line without a handler takes one, and only then; every other line keeps what it had.
pub proof fn law_registered<H: Copy>(
    table: &mut HandlerTable<H>,
    irq: u8,
    handler: H,
    r: Result<(), &'static str>,
    other: int,
)
    requires
        call_ensures(register::<H>, (table, irq, handler), r),
        0 <= other < 16,
    ensures
        r is Ok <==> irq < 16 && old(table)@[irq as int] is None,
        r is Ok ==> final(table)@[irq as int] == Some(handler),
        other != irq ==> final(table)@[other] == old(table)@[other],
        r is Err ==> final(table)@ == old(table)@,
{
    old(table).lemma_len();
    final(table).lemma_len();
}

/// A line that was emptied has no handler; every other line keeps what it had.
pub proof fn law_unregistered<H: Copy>(table: &mut HandlerTable<H>, irq: u8, other: int)
    requires
        call_ensures(unregister::<H>, (table, irq), ()),
        0 <= other < 16,
    ensures
        irq < 16 ==> final(table)@[irq as int] is None,
        other != irq ==> final(table)@[other] == old(table)@[other],
{
    old(table).lemma_len();
    final(table).lemma_len();
}

} // verus!
