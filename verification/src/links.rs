//! Doubly linked lists threaded through managed memory.
//!
//! A node is an address; its `prev` and `next` words lie at fixed offsets from it, and a
//! zero word ends the list in either direction. The list owns no storage of its own.

use crate::memory::Memory;
use vstd::prelude::*;

verus! {

/// Where a node keeps its link words, and how many bytes the node reserves.
#[derive(Clone, Copy)]
pub struct Links {
    pub prev: u64,
    pub next: u64,
    pub size: u64,
}

impl Links {
    /// The two link words are distinct and lie within the node.
    pub open spec fn wf(self) -> bool {
        &&& self.prev + 8 <= self.size
        &&& self.next + 8 <= self.size
        &&& (self.prev + 8 <= self.next || self.next + 8 <= self.prev)
        &&& self.size <= 64
    }

    /// `a` is the address of a byte of one of the link words of `node`.
    pub open spec fn covers(self, node: u64, a: int) -> bool {
        node + self.prev <= a < node + self.prev + 8 || node + self.next <= a < node + self.next + 8
    }
}

/// The node at position `i`, or null beside either end of the list.
pub open spec fn node_at(nodes: Seq<u64>, i: int) -> u64 {
    if 0 <= i < nodes.len() {
        nodes[i]
    } else {
        0
    }
}

/// The node at position `i` holds the links that its neighbours dictate.
pub open spec fn node_linked(mem: &Memory, off: Links, nodes: Seq<u64>, i: int) -> bool {
    &&& nodes[i] > 0
    &&& mem.holds(nodes[i] as int, off.size as int)
    &&& mem.word(nodes[i] + off.prev) == node_at(nodes, i - 1)
    &&& mem.word(nodes[i] + off.next) == node_at(nodes, i + 1)
}

/// Neither of two nodes reaches into the other.
pub open spec fn apart(off: Links, m: u64, n: u64) -> bool {
    m + off.size <= n || n + off.size <= m
}

/// `nodes` are the nodes of a list in `mem`, first to last.
pub open spec fn linked(mem: &Memory, off: Links, nodes: Seq<u64>) -> bool {
    &&& forall|i: int| 0 <= i < nodes.len() ==> #[trigger] node_linked(mem, off, nodes, i)
    &&& forall|i: int, j: int|
        0 <= i < j < nodes.len() ==> #[trigger] apart(off, nodes[i], nodes[j])
}

/// A list stays linked where the link words of its nodes stay as they are.
pub proof fn lemma_linked_frame(before: &Memory, after: &Memory, off: Links, nodes: Seq<u64>)
    requires
        off.wf(),
        linked(before, off, nodes),
        after.same_range(before),
        forall|i: int, a: int|
            #![trigger nodes[i], after.at(a)]
            0 <= i < nodes.len() && off.covers(nodes[i], a) ==> after.at(a) == before.at(a),
    ensures
        linked(after, off, nodes),
{
    assert forall|i: int| 0 <= i < nodes.len() implies #[trigger] node_linked(
        after,
        off,
        nodes,
        i,
    ) by {
        assert(node_linked(before, off, nodes, i));
        let p = nodes[i] + off.prev;
        let n = nodes[i] + off.next;
        assert(after.agrees(before, p, p + 8));
        assert(after.agrees(before, n, n + 8));
        after.lemma_agrees(before, p, p + 8);
        after.lemma_agrees(before, n, n + 8);
    }
}

/// Links `node` in front of the list `nodes` whose head is `head`; gives the new head.
pub(crate) fn push_front(
    mem: &mut Memory,
    off: Links,
    head: u64,
    node: u64,
    Ghost(nodes): Ghost<Seq<u64>>,
) -> (new_head: u64)
    requires
        off.wf(),
        old(mem).wf(),
        linked(old(mem), off, nodes),
        head == node_at(nodes, 0),
        node > 0,
        old(mem).holds(node as int, off.size as int),
        forall|i: int| 0 <= i < nodes.len() ==> #[trigger] apart(off, node, nodes[i]),
    ensures
        new_head == node,
        final(mem).wf(),
        final(mem).same_range(old(mem)),
        linked(final(mem), off, seq![node] + nodes),
        forall|a: int|
            #![trigger final(mem).at(a)]
            old(mem).holds(a, 1) && !off.covers(node, a) && !(nodes.len() > 0 && off.covers(
                nodes[0],
                a,
            )) ==> final(mem).at(a) == old(mem).at(a),
{
    mem.write_u64(node + off.prev, 0);
    mem.write_u64(node + off.next, head);
    if head != 0 {
        assert(node_linked(old(mem), off, nodes, 0));
        assert(apart(off, node, nodes[0]));
        mem.write_u64(head + off.prev, node);
    }
    proof {
        let all = seq![node] + nodes;
        assert forall|i: int| 0 <= i < all.len() implies #[trigger] node_linked(
            mem,
            off,
            all,
            i,
        ) by {
            if i > 0 {
                assert(all[i] == nodes[i - 1]);
                assert(node_linked(old(mem), off, nodes, i - 1));
                assert(apart(off, node, nodes[i - 1]));
                if i > 1 {
                    assert(apart(off, nodes[0], nodes[i - 1]));
                }
            }
        }
        assert forall|i: int, j: int| 0 <= i < j < all.len() implies #[trigger] apart(off, all[i], all[j]) by {
            assert(all[j] == nodes[j - 1]);
            if i > 0 {
                assert(all[i] == nodes[i - 1]);
                assert(apart(off, nodes[i - 1], nodes[j - 1]));
            } else {
                assert(apart(off, node, nodes[j - 1]));
            }
        }
    }
    node
}

/// Unlinks `node`, which stands at position `at`, from the list `nodes` whose head is
/// `head`; gives the new head.
pub(crate) fn unlink(
    mem: &mut Memory,
    off: Links,
    head: u64,
    node: u64,
    Ghost(nodes): Ghost<Seq<u64>>,
    Ghost(at): Ghost<int>,
) -> (new_head: u64)
    requires
        off.wf(),
        old(mem).wf(),
        linked(old(mem), off, nodes),
        head == node_at(nodes, 0),
        0 <= at < nodes.len(),
        node == nodes[at],
    ensures
        new_head == node_at(nodes.remove(at), 0),
        final(mem).wf(),
        final(mem).same_range(old(mem)),
        linked(final(mem), off, nodes.remove(at)),
        forall|a: int|
            #![trigger final(mem).at(a)]
            old(mem).holds(a, 1) && !(at > 0 && off.covers(nodes[at - 1], a)) && !(at + 1
                < nodes.len() && off.covers(nodes[at + 1], a)) ==> final(mem).at(a) == old(
                mem,
            ).at(a),
{
    assert(node_linked(old(mem), off, nodes, at));
    let prev: u64 = mem.read_u64(node + off.prev);
    let next: u64 = mem.read_u64(node + off.next);
    let mut new_head: u64 = head;
    if prev != 0 {
        assert(node_linked(old(mem), off, nodes, at - 1));
        mem.write_u64(prev + off.next, next);
    } else {
        assert(at == 0) by {
            if at > 0 {
                assert(node_linked(old(mem), off, nodes, at - 1));
            }
        }
        new_head = next;
    }
    if next != 0 {
        assert(node_linked(old(mem), off, nodes, at + 1));
        assert(at > 0 ==> apart(off, nodes[at - 1], nodes[at + 1]));
        mem.write_u64(next + off.prev, prev);
    }
    proof {
        let rest = nodes.remove(at);
        assert forall|i: int| 0 <= i < rest.len() implies #[trigger] node_linked(
            mem,
            off,
            rest,
            i,
        ) by {
            let j = if i < at {
                i
            } else {
                i + 1
            };
            assert(rest[i] == nodes[j]);
            assert(node_linked(old(mem), off, nodes, j));
            if at > 0 {
                assert(node_linked(old(mem), off, nodes, at - 1));
                if j < at - 1 {
                    assert(apart(off, nodes[j], nodes[at - 1]));
                }
                if j > at - 1 {
                    assert(apart(off, nodes[at - 1], nodes[j]));
                }
            }
            if at + 1 < nodes.len() {
                assert(node_linked(old(mem), off, nodes, at + 1));
                if j < at + 1 {
                    assert(apart(off, nodes[j], nodes[at + 1]));
                }
                if j > at + 1 {
                    assert(apart(off, nodes[at + 1], nodes[j]));
                }
            }
        }
        assert forall|i: int, j: int| 0 <= i < j < rest.len() implies #[trigger] apart(off, rest[i], rest[j]) by {
            let i2 = if i < at {
                i
            } else {
                i + 1
            };
            let j2 = if j < at {
                j
            } else {
                j + 1
            };
            assert(rest[i] == nodes[i2] && rest[j] == nodes[j2]);
            assert(apart(off, nodes[i2], nodes[j2]));
        }
    }
    new_head
}

} // verus!
