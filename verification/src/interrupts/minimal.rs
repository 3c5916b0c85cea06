//! The smallest table that a test kernel runs with.

use crate::gdt::DOUBLE_FAULT_IST_INDEX;
use crate::interrupts::exceptions::{entry, own_stack, Entry, Handler};
use crate::interrupts::handlers::{Frame, Outcome};
use crate::interrupts::vectors::{EXC_BREAKPOINT, EXC_DOUBLE_FAULT};
use vstd::prelude::*;
use vstd::string::StringExecFns;

verus! {

/// The entries to load: breakpoints, and double faults on their own stack.
pub fn init_idt() -> (table: Vec<Entry>)
    ensures
        table@ == seq![
            entry(EXC_BREAKPOINT, Handler::PlainBreakpoint),
            own_stack(EXC_DOUBLE_FAULT, Handler::PlainDoubleFault, DOUBLE_FAULT_IST_INDEX),
        ],
{
    vec![
        entry(EXC_BREAKPOINT, Handler::PlainBreakpoint),
        own_stack(EXC_DOUBLE_FAULT, Handler::PlainDoubleFault, DOUBLE_FAULT_IST_INDEX),
    ]
}

/// Breakpoint: logged, and execution goes on.
pub fn breakpoint_handler(frame: &Frame) -> (r: Outcome)
    requires
        frame.wf(),
    ensures
        r matches Outcome::Print(s) && s@ == "EXCEPTION: BREAKPOINT\n"@ + frame.dump() + "\n"@,
{
    let mut s: String = String::from_str("EXCEPTION: BREAKPOINT\n");
    s.append(frame.text().as_str());
    s.append("\n");
    Outcome::Print(s)
}

/// Double fault: not survived.
pub fn double_fault_handler(frame: &Frame) -> (r: Outcome)
    requires
        frame.wf(),
    ensures
        r matches Outcome::Panic(s) && s@ == "EXCEPTION: DOUBLE FAULT\n"@ + frame.dump(),
{
    let mut s: String = String::from_str("EXCEPTION: DOUBLE FAULT\n");
    s.append(frame.text().as_str());
    Outcome::Panic(s)
}

} // verus!
