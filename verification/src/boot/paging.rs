//! Mapping the heap page by page.
//!
//! Frames and page tables are elsewhere: [`HeapInit`] says what is to be done next and is
//! told what came of it.

use crate::align::aligned_down;
use crate::boot::multiboot2::{BOOT_MAPPED_PHYS, HEAP_START_PHYS, HHDM_OFFSET};
use crate::framework::PAGE_SIZE;
use crate::interrupts::handlers::canonical;
use vstd::prelude::*;

verus! {

/// Where the heap starts if it has to be mapped.
pub const HEAP_START: u64 = 0x4444_4444_0000;

/// Its bytes.
pub const HEAP_SIZE: u64 = 102400;

/// Where the heap starts if it lies in memory that is mapped at boot.
pub const BARNACLE_HEAP_START: u64 = 0xffff_ffff_8016_0000;

/// Its bytes.
pub const BARNACLE_HEAP_SIZE: u64 = 0x8_0000;

/// Flag of a page that is there.
pub const PRESENT: u64 = 1;

/// Flag of a page that can be written.
pub const WRITABLE: u64 = 2;

/// [`x86_64::structures::paging::Page::containing_address`] for pages of 4 KiB: the start of
/// the page that contains `addr`, the greatest multiple of the page size up to it.
#[verifier::external_body]
fn page_containing(addr: u64) -> (start: u64)
    requires
        canonical(addr),
    ensures
        start == aligned_down(addr as int, PAGE_SIZE as int),
{
    let page: x86_64::structures::paging::Page<x86_64::structures::paging::Size4KiB> =
        x86_64::structures::paging::Page::containing_address(x86_64::VirtAddr::new(addr));
    page.start_address().as_u64()
}

/// The pages of the heap, by their first address.
pub open spec fn heap_pages() -> Seq<u64> {
    Seq::new(
        (HEAP_SIZE / PAGE_SIZE) as nat,
        |i: int| (HEAP_START + i * PAGE_SIZE) as u64,
    )
}

/// The pages of the heap cover it, without a gap and without a byte more.
pub proof fn law_heap_pages(x: int)
    ensures
        heap_pages().len() == 25,
        forall|i: int|
            0 <= i < heap_pages().len() ==> #[trigger] heap_pages()[i] % PAGE_SIZE == 0,
        HEAP_START <= x < HEAP_START + HEAP_SIZE <==> exists|i: int|
            0 <= i < heap_pages().len() && #[trigger] heap_pages()[i] <= x < heap_pages()[i]
                + PAGE_SIZE,
{
    if HEAP_START <= x < HEAP_START + HEAP_SIZE {
        let i = (x - HEAP_START) / (PAGE_SIZE as int);
        assert(heap_pages()[i] <= x < heap_pages()[i] + PAGE_SIZE);
    }
}

/// The heap in memory that is mapped at boot starts above the kernel image and ends where
/// that memory does, at the latest.
pub proof fn law_barnacle_heap()
    ensures
        BARNACLE_HEAP_START == HHDM_OFFSET + HEAP_START_PHYS,
        BARNACLE_HEAP_START + BARNACLE_HEAP_SIZE <= HHDM_OFFSET + BOOT_MAPPED_PHYS,
{
}

/// The pages of the heap.
fn pages() -> (p: Vec<u64>)
    ensures
        p@ == heap_pages(),
{
    let first: u64 = page_containing(HEAP_START);
    let last: u64 = page_containing(HEAP_START + (HEAP_SIZE - 1));
    let mut p: Vec<u64> = Vec::new();
    let mut page: u64 = first;
    while page <= last
        invariant
            first == HEAP_START,
            last == HEAP_START + (HEAP_SIZE - PAGE_SIZE),
            page == first + p@.len() * PAGE_SIZE,
            page <= last + PAGE_SIZE,
            p@ =~= Seq::new(p@.len(), |i: int| (HEAP_START + i * PAGE_SIZE) as u64),
        decreases last + PAGE_SIZE - page,
    {
        p.push(page);
        page = page + PAGE_SIZE;
    }
    assert(p@.len() == HEAP_SIZE / PAGE_SIZE);
    assert(p@ =~= heap_pages());
    p
}

/// Why a page could not be mapped.
#[derive(Debug, Clone, Copy, PartialEq, Eq, Structural)]
pub enum MapToError {
    /// There was no frame.
    FrameAllocationFailed,
    /// The page is part of a huge page that is mapped.
    ParentEntryHugePage,
    /// The page is mapped to this frame.
    PageAlreadyMapped(u64),
}

/// What is to be done.
#[derive(Debug, Clone, Copy, PartialEq, Eq, Structural)]
pub enum HeapAction {
    /// Find a free frame.
    AllocateFrame,
    /// Map a page to a frame.
    MapTo {
        /// First address of the page.
        page: u64,
        /// First address of the frame.
        frame: u64,
        /// Flags of the page.
        flags: u64,
    },
    /// Hand a range that is mapped to the allocator.
    InitAllocator {
        /// First address.
        start: u64,
        /// Bytes.
        size: u64,
    },
}

/// What came of it.
#[derive(Debug, Clone, Copy)]
pub enum HeapEvent {
    /// The frame that was found, if any.
    Frame(Option<u64>),
    /// Whether the page was mapped.
    Mapped(Result<(), MapToError>),
}

/// How far the heap is mapped.
pub struct HeapInit {
    /// The pages.
    pages: Vec<u64>,
    /// How many of them are mapped.
    mapped: usize,
    /// The frame that was found for the next one.
    frame: Option<u64>,
}

impl HeapInit {
    /// The pages are those of the heap, and no more are mapped than there are.
    pub closed spec fn wf(&self) -> bool {
        &&& self.pages@ == heap_pages()
        &&& self.mapped <= self.pages@.len()
        &&& self.mapped == self.pages@.len() ==> self.frame is None
    }

    /// How many pages are mapped.
    pub closed spec fn done(&self) -> int {
        self.mapped as int
    }

    /// The frame that was found for the next page.
    pub closed spec fn found(&self) -> Option<u64> {
        self.frame
    }

    /// What is to be done next.
    pub open spec fn action(&self) -> HeapAction {
        if self.done() == heap_pages().len() {
            HeapAction::InitAllocator { start: HEAP_START, size: HEAP_SIZE }
        } else {
            match self.found() {
                None => HeapAction::AllocateFrame,
                Some(frame) => HeapAction::MapTo {
                    page: heap_pages()[self.done()],
                    frame,
                    flags: (PRESENT + WRITABLE) as u64,
                },
            }
        }
    }

    /// `event` is what can come of the next action.
    pub open spec fn expects(&self, event: HeapEvent) -> bool {
        match self.action() {
            HeapAction::AllocateFrame => event is Frame,
            HeapAction::MapTo { .. } => event is Mapped,
            HeapAction::InitAllocator { .. } => false,
        }
    }

    /// What is to be done next.
    pub fn next(&self) -> (a: HeapAction)
        requires
            self.wf(),
        ensures
            a == self.action(),
    {
        if self.mapped == self.pages.len() {
            HeapAction::InitAllocator { start: HEAP_START, size: HEAP_SIZE }
        } else {
            match self.frame {
                None => HeapAction::AllocateFrame,
                Some(frame) => HeapAction::MapTo {
                    page: self.pages[self.mapped],
                    frame,
                    flags: PRESENT + WRITABLE,
                },
            }
        }
    }

    /// Takes note of what came of the last action; a failure ends the whole.
    pub fn advance(&mut self, event: HeapEvent) -> (r: Result<(), MapToError>)
        requires
            old(self).wf(),
            old(self).expects(event),
        ensures
            final(self).wf(),
            match event {
                HeapEvent::Frame(Some(frame)) => r is Ok && final(self).done() == old(self).done()
                    && final(self).found() == Some(frame),
                HeapEvent::Frame(None) => r == Err::<(), MapToError>(
                    MapToError::FrameAllocationFailed,
                ) && *final(self) == *old(self),
                HeapEvent::Mapped(Ok(())) => r is Ok && final(self).done() == old(self).done() + 1
                    && final(self).found() is None,
                HeapEvent::Mapped(Err(e)) => r == Err::<(), MapToError>(e) && *final(self) == *old(
                    self,
                ),
            },
    {
        match event {
            HeapEvent::Frame(Some(frame)) => {
                self.frame = Some(frame);
                Ok(())
            },
            HeapEvent::Frame(None) => Err(MapToError::FrameAllocationFailed),
            HeapEvent::Mapped(Ok(())) => {
                self.mapped = self.mapped + 1;
                self.frame = None;
                Ok(())
            },
            HeapEvent::Mapped(Err(e)) => Err(e),
        }
    }
}

/// Starts mapping the heap: nothing is mapped yet.
pub fn init_heap() -> (h: HeapInit)
    ensures
        h.wf(),
        h.done() == 0,
        h.found() is None,
{
    HeapInit { pages: pages(), mapped: 0, frame: None }
}

/// The range of the heap in memory that is mapped at boot: its first address and its bytes.
pub fn init_heap_barnacle() -> (r: (u64, u64))
    ensures
        r == (BARNACLE_HEAP_START, BARNACLE_HEAP_SIZE),
{
    (BARNACLE_HEAP_START, BARNACLE_HEAP_SIZE)
}

/// The heap is mapped page after page, each to the frame that was found for it and so that it
/// can be written; it is handed over whole, once every page is mapped and not before.
pub proof fn law_actions(h: HeapInit)
    requires
        0 <= h.done() <= 25,
    ensures
        h.action() == (HeapAction::InitAllocator { start: 0x4444_4444_0000, size: 102_400 })
            <==> h.done() == 25,
        h.action() is InitAllocator <==> h.done() == 25,
        h.action() is AllocateFrame <==> h.done() < 25 && h.found() is None,
        h.action() matches HeapAction::MapTo { page, frame, flags } ==> {
            &&& h.found() == Some(frame)
            &&& page == 0x4444_4444_0000 + h.done() * 4096
            &&& flags == 3
        },
        h.action() is MapTo <==> h.done() < 25 && h.found() is Some,
        forall|f: Option<u64>|
            #[trigger] h.expects(HeapEvent::Frame(f)) <==> h.done() < 25 && h.found() is None,
        forall|m: Result<(), MapToError>|
            #[trigger] h.expects(HeapEvent::Mapped(m)) <==> h.done() < 25 && h.found() is Some,
{
}

} // verus!
