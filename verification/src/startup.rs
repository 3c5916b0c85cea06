//! In which order the parts of the machine are brought up.

use vstd::prelude::*;
use vstd::string::StringExecFns;

verus! {

/// One part to bring up.
#[derive(Debug)]
pub enum Stage {
    /// Load the segments and the stacks of the gravest exceptions.
    LoadSegments,
    /// Load the table of interrupt vectors.
    LoadVectors,
    /// Move the interrupt controllers to their vectors.
    InitControllers,
    /// Let interrupts come.
    EnableInterrupts,
    /// Print a text.
    Print(String),
}

/// Interrupts: the table has to be there before the controllers can raise anything.
pub fn interrupts_init() -> (stages: Vec<Stage>)
    ensures
        stages@.len() == 3,
        stages@[0] is LoadVectors,
        stages@[1] is InitControllers,
        stages@[2] matches Stage::Print(s) && s@ == "[interrupts] subsystem initialized\n"@,
{
    vec![
        Stage::LoadVectors,
        Stage::InitControllers,
        Stage::Print(String::from_str("[interrupts] subsystem initialized\n")),
    ]
}

/// The kernel: nothing may come before everything is in place to handle it.
pub fn init() -> (stages: Vec<Stage>)
    ensures
        stages@ == seq![
            Stage::LoadSegments,
            Stage::LoadVectors,
            Stage::InitControllers,
            Stage::EnableInterrupts,
        ],
{
    vec![
        Stage::LoadSegments,
        Stage::LoadVectors,
        Stage::InitControllers,
        Stage::EnableInterrupts,
    ]
}

} // verus!
