//! The first thing that the kernel does with its heap.

use crate::buddy::model::{fitting_order, lemma_fitting_order, lemma_span, span};
use crate::buddy::BuddyAllocator;
use crate::framework::AllocStats;
use crate::memory::{word_of, Memory};
use crate::slab::laws::{law_alloc_valid, law_handed_out, law_object_untouched};
use crate::slab::model::{lemma_slots_apart, SlabView};
use crate::slab::SlabCache;
use vstd::prelude::*;

verus! {

/// Bytes of a [`TaskControlBlock`].
pub const TASK_BYTES: u64 = 32;

/// What the kernel keeps of a task.
pub struct TaskControlBlock {
    /// Number of the task.
    pub pid: u64,
    /// Where its stack is.
    pub stack_ptr: u64,
    /// Where its page table is.
    pub page_table: u64,
    /// What it is doing.
    pub state: u32,
    /// How urgent it is.
    pub priority: u16,
}

/// Writes task `pid`, all else zero, into the slot at `slot`.
fn write_task(mem: &mut Memory, slot: u64, pid: u64)
    requires
        old(mem).wf(),
        old(mem).holds(slot as int, TASK_BYTES as int),
    ensures
        final(mem).wf(),
        final(mem).same_range(old(mem)),
        final(mem).word(slot as int) == pid,
        final(mem).word(slot + 8) == 0,
        final(mem).word(slot + 16) == 0,
        final(mem).word(slot + 24) == 0,
        forall|a: int|
            old(mem).holds(a, 1) && !(slot <= a < slot + TASK_BYTES) ==> #[trigger] final(mem).at(a)
                == old(mem).at(a),
{
    mem.write_u64(slot, pid);
    mem.write_u64(slot + 8, 0);
    mem.write_u64(slot + 16, 0);
    mem.write_u64(slot + 24, 0);
}

/// The records of a cache and the free blocks of its page allocator lie in memory.
proof fn lemma_records_held(v: SlabView, buddy: &BuddyAllocator, mem: &Memory, x: int)
    requires
        buddy.wf(mem),
        v.valid(),
        v.placed(buddy@),
        v.in_records(x) || buddy@.in_free(x),
    ensures
        mem.holds(x, 1),
{
    buddy.lemma_wf(mem);
    let bd = buddy@;
    if bd.in_free(x) {
        let (p, k) = choose|p: int, k: int| #[trigger]
            bd.is_free(p, k) && bd.addr(p) <= x < bd.addr(p + span(k));
        assert(bd.is_block(p, k));
    } else {
        let b = choose|b: u64| #[trigger]
            v.is_slab(b) && (v.header(b) <= x < v.header(b) + 24 || v.in_chain(b, x));
        assert(v.chain_ok(b));
        lemma_slots_apart(v, b, 0, v.cap);
        if v.in_chain(b, x) {
            let n = choose|n: int|
                0 <= n < v.slabs[b].len() && v.slot(b, #[trigger] v.slabs[b][n] as int) <= x
                    < v.slot(b, v.slabs[b][n] as int) + 2;
            lemma_slots_apart(v, b, v.slabs[b][n] as int, v.cap);
        }
        let p = bd.page(b as int);
        assert(bd.addr(p) == b);
        assert(bd.is_block(p, v.order));
    }
}

/// A cache that has to grow gets a block at an address of the machine.
proof fn lemma_growth(
    v: SlabView,
    tasks: &SlabCache<TaskControlBlock>,
    buddy: &BuddyAllocator,
    mem: &Memory,
)
    requires
        v == tasks@,
        tasks.wf(buddy@, mem),
        buddy.wf(mem),
    ensures
        v.valid(),
        v.placed(buddy@),
        buddy@.valid(),
        v.grows() && v.has_room(buddy@) ==> 0 < buddy@.addr(buddy@.next_page(v.order)) <= u64::MAX,
{
    let bd = buddy@;
    tasks.lemma_wf(bd, mem);
    buddy.lemma_wf(mem);
    if v.grows() && v.has_room(bd) {
        let k = fitting_order(bd.lists, v.order);
        lemma_fitting_order(bd.lists, v.order);
        lemma_span(k);
        assert(bd.lists[k].contains(bd.lists[k][0]));
        assert(bd.is_free(bd.next_page(v.order), k));
        assert(bd.is_block(bd.next_page(v.order), k));
    }
}

/// The slot at `slot` holds task `pid`, with all else zero.
pub open spec fn holds_task(mem: &Memory, slot: int, pid: u64) -> bool {
    mem.word(slot) == pid && mem.word(slot + 8) == 0 && mem.word(slot + 16) == 0 && mem.word(
        slot + 24,
    ) == 0
}

/// The slot at `slot` holds what stays of the first task once the slot was given back: all of
/// it but the first two bytes of its number, in whose place the slots are chained.
pub open spec fn left_of_task(mem: &Memory, slot: int) -> bool {
    &&& forall|a: int| slot + 2 <= a < slot + 8 ==> #[trigger] mem.at(a) == 0
    &&& mem.word(slot + 8) == 0
    &&& mem.word(slot + 16) == 0
    &&& mem.word(slot + 24) == 0
}

/// A word that holds one has zeros behind its first two bytes.
proof fn lemma_one(mem: &Memory, slot: int)
    requires
        mem.word(slot) == 1,
    ensures
        forall|a: int| slot + 2 <= a < slot + 8 ==> #[trigger] mem.at(a) == 0,
{
    reveal(Memory::word);
    let b0 = mem.at(slot);
    let b1 = mem.at(slot + 1);
    let b2 = mem.at(slot + 2);
    let b3 = mem.at(slot + 3);
    let b4 = mem.at(slot + 4);
    let b5 = mem.at(slot + 5);
    let b6 = mem.at(slot + 6);
    let b7 = mem.at(slot + 7);
    assert(b2 == 0 && b3 == 0 && b4 == 0 && b5 == 0 && b6 == 0 && b7 == 0) by (bit_vector)
        requires
            word_of(b0, b1, b2, b3, b4, b5, b6, b7) == 1,
    ;
    assert forall|a: int| slot + 2 <= a < slot + 8 implies #[trigger] mem.at(a) == 0 by {
        assert(a == slot + 2 || a == slot + 3 || a == slot + 4 || a == slot + 5 || a == slot + 6
            || a == slot + 7);
    }
}

/// Makes the first task, which is number one, in a slot of `tasks`: gives the address of the
/// slot, or nothing where there is no room.
pub fn first_task(
    tasks: &mut SlabCache<TaskControlBlock>,
    buddy: &mut BuddyAllocator,
    mem: &mut Memory,
) -> (r: Option<u64>)
    requires
        old(tasks).wf(old(buddy)@, old(mem)),
        old(buddy).wf(old(mem)),
        old(tasks)@.size >= TASK_BYTES,
        old(tasks)@.can_alloc(old(buddy)@),
    ensures
        final(buddy).wf(final(mem)),
        final(tasks).wf(final(buddy)@, final(mem)),
        final(mem).same_range(old(mem)),
        r is Some <==> old(tasks)@.has_room(old(buddy)@),
        match r {
            Some(slot) => {
                &&& slot == old(tasks)@.next_addr(old(buddy)@)
                &&& final(tasks)@ == old(tasks)@.after_alloc(old(buddy)@)
                &&& final(buddy)@ == old(tasks)@.buddy_after_alloc(old(buddy)@)
                &&& final(mem).holds(slot as int, TASK_BYTES as int)
                &&& holds_task(final(mem), slot as int, 1)
                &&& forall|x: int|
                    #![trigger final(mem).at(x)]
                    old(mem).holds(x, 1) && !old(buddy)@.in_free(x) && !old(tasks)@.in_records(x)
                        && !(slot <= x < slot + TASK_BYTES) ==> final(mem).at(x) == old(mem).at(x)
            },
            None => final(tasks)@ == old(tasks)@ && final(buddy)@ == old(buddy)@,
        },
{
    let ghost v = tasks@;
    let ghost bd = buddy@;
    let ghost b = v.source(bd);
    let ghost i = v.readied(bd).next_slot() as int;
    proof {
        lemma_growth(v, tasks, buddy, mem);
    }
    let r = tasks.allocate(buddy, mem);
    if let Some(slot) = r {
        let ghost w = tasks@;
        let ghost bd1 = buddy@;
        let ghost taken = *mem;
        proof {
            tasks.lemma_wf(bd1, mem);
            buddy.lemma_wf(mem);
            law_alloc_valid(v, bd);
            assert(w.is_slab(b));
            let p = bd1.page(b as int);
            assert(bd1.addr(p) == b);
            assert(bd1.is_block(p, w.order));
            lemma_slots_apart(w, b, i, w.cap);
        }
        write_task(mem, slot, 1);
        proof {
            assert forall|x: int|
                #![trigger mem.at(x)]
                w.in_records(x) || bd1.in_free(x) implies mem.at(x) == taken.at(x) by {
                lemma_records_held(w, buddy, &taken, x);
                if w.in_slot(b, i, x) {
                    law_object_untouched(w, bd1, b, i, x);
                }
            }
            tasks.lemma_frame(bd1, bd1, &taken, mem);
            buddy.lemma_frame(&taken, mem);
        }
    }
    r
}

/// Makes the first task in a slot of `tasks` and gives the slot back. The result is the
/// counters of the page allocator and of the cache while the task is there.
pub fn kernel_main_post_heap(
    tasks: &mut SlabCache<TaskControlBlock>,
    buddy: &mut BuddyAllocator,
    mem: &mut Memory,
) -> (r: Result<(AllocStats, AllocStats), &'static str>)
    requires
        old(tasks).wf(old(buddy)@, old(mem)),
        old(buddy).wf(old(mem)),
        old(tasks)@.size >= TASK_BYTES,
        old(tasks)@.can_alloc(old(buddy)@),
        old(tasks)@.stats.dealloc_count < u64::MAX,
    ensures
        final(buddy).wf(final(mem)),
        final(tasks).wf(final(buddy)@, final(mem)),
        final(mem).same_range(old(mem)),
        ({
            let v = old(tasks)@;
            let bd = old(buddy)@;
            let used = v.after_alloc(bd);
            let b = v.source(bd);
            let i = v.readied(bd).next_slot() as int;
            match r {
                Ok((pages, slots)) => {
                    &&& v.has_room(bd)
                    &&& pages == v.buddy_after_alloc(bd).stats
                    &&& slots == used.stats
                    &&& final(tasks)@ == used.after_dealloc(b, i)
                    &&& final(buddy)@ == used.buddy_after_dealloc(v.buddy_after_alloc(bd), b)
                    &&& final(tasks)@.is_slab(b) ==> left_of_task(final(mem), used.slot(b, i))
                },
                Err(e) => {
                    &&& !v.has_room(bd)
                    &&& e@ == "TCB slab OOM"@
                    &&& final(tasks)@ == v
                    &&& final(buddy)@ == bd
                },
            }
        }),
{
    let ghost v = tasks@;
    let ghost bd = buddy@;
    let ghost b = v.source(bd);
    let ghost i = v.readied(bd).next_slot() as int;
    proof {
        lemma_growth(v, tasks, buddy, mem);
    }
    match first_task(tasks, buddy, mem) {
        None => Err("TCB slab OOM"),
        Some(slot) => {
            let ghost w = tasks@;
            let ghost bd1 = buddy@;
            let ghost written = *mem;
            proof {
                tasks.lemma_wf(bd1, mem);
                buddy.lemma_wf(mem);
                law_alloc_valid(v, bd);
                law_handed_out(w, bd1, b, i);
                assert(w.is_slab(b));
                lemma_slots_apart(w, b, i, w.cap);
                lemma_one(mem, slot as int);
            }
            let pages: AllocStats = buddy.stats();
            let slots: AllocStats = tasks.stats();
            tasks.dealloc(buddy, mem, slot);
            proof {
                if tasks@.is_slab(b) {
                    assert(!w.empties(b));
                    assert forall|x: int| slot + 2 <= x < slot + TASK_BYTES implies #[trigger] mem.at(x)
                        == written.at(x) by {
                        law_object_untouched(w, bd1, b, i, x);
                        assert(written.holds(x, 1));
                    }
                    mem.lemma_agrees(&written, slot + 2, slot + TASK_BYTES);
                }
            }
            Ok((pages, slots))
        },
    }
}

/// A task in its slot has its number first and zeros behind it; what is left of the first one
/// has no other byte than zero behind the two that its slot is chained by.
pub proof fn law_task(mem: &Memory, slot: int, pid: u64)
    ensures
        holds_task(mem, slot, pid) <==> mem.word(slot) == pid && mem.word(slot + 8) == 0 && mem.word(
            slot + 16,
        ) == 0 && mem.word(slot + 24) == 0,
        left_of_task(mem, slot) ==> mem.at(slot + 2) == 0 && mem.at(slot + 3) == 0 && mem.at(
            slot + 4,
        ) == 0 && mem.at(slot + 5) == 0 && mem.at(slot + 6) == 0 && mem.at(slot + 7) == 0,
        left_of_task(mem, slot) ==> mem.word(slot + 8) == 0 && mem.word(slot + 16) == 0 && mem.word(
            slot + 24,
        ) == 0,
        holds_task(mem, slot, 1) ==> left_of_task(mem, slot),
{
    if holds_task(mem, slot, 1) {
        lemma_one(mem, slot);
    }
}

} // verus!
