//! Two characters in the corner of the screen, for a kernel that has nothing else.

use crate::boot::multiboot2::HHDM_OFFSET;
use vstd::prelude::*;

verus! {

/// Physical address of the text screen.
pub const VGA_PHYS: u64 = 0xb8000;

/// White on black.
pub const WHITE: u8 = 0x0f;

/// Red on black.
pub const RED: u8 = 0x0c;

/// One word for one address.
#[derive(Debug, Clone, Copy, PartialEq, Eq, Structural)]
pub struct ScreenWrite {
    /// The address.
    pub addr: u64,
    /// The word.
    pub value: u16,
}

/// Character `c` in a colour, `column` characters from the corner on.
pub open spec fn shown(column: int, c: u8, colour: u8) -> ScreenWrite {
    ScreenWrite {
        addr: (HHDM_OFFSET + VGA_PHYS + 2 * column) as u64,
        value: (colour * 256 + c) as u16,
    }
}

/// Character `c` in a colour, `column` characters from the corner on.
fn show(column: u64, c: u8, colour: u8) -> (w: ScreenWrite)
    requires
        column < 2000,
    ensures
        w == shown(column as int, c, colour),
{
    ScreenWrite {
        addr: HHDM_OFFSET + VGA_PHYS + 2 * column,
        value: colour as u16 * 256 + c as u16,
    }
}

/// What is written when the kernel was entered: `OK`.
pub fn kmain() -> (w: [ScreenWrite; 2])
    ensures
        w@ == seq![shown(0, 0x4f, WHITE), shown(1, 0x4b, WHITE)],
{
    let w: [ScreenWrite; 2] = [show(0, 0x4f, WHITE), show(1, 0x4b, WHITE)];
    assert(w@ =~= seq![shown(0, 0x4f, WHITE), shown(1, 0x4b, WHITE)]);
    w
}

/// What is written when the kernel gives up: `!!`.
pub fn alarm() -> (w: [ScreenWrite; 2])
    ensures
        w@ == seq![shown(0, 0x21, RED), shown(1, 0x21, RED)],
{
    let w: [ScreenWrite; 2] = [show(0, 0x21, RED), show(1, 0x21, RED)];
    assert(w@ =~= seq![shown(0, 0x21, RED), shown(1, 0x21, RED)]);
    w
}

/// A character on the screen is a word with the character in its low byte and the colour in
/// its high byte, and the words of a line lie next to each other.
pub proof fn law_shown(column: int, c: u8, colour: u8)
    requires
        0 <= column < 2000,
    ensures
        shown(column, c, colour).value % 256 == c,
        shown(column, c, colour).value / 256 == colour,
        shown(column, c, colour).addr == 0xffff_ffff_800b_8000 + 2 * column,
{
}

} // verus!
