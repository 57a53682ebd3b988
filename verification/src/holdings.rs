//! The blocks that a call holds.
//!
//! While a call is under way it holds blocks of shadow storage. As long as
//! every block that it gives back is one that it holds, the arenas account
//! for every byte: a byte is free exactly if it was free before the call and
//! belongs to no block that the call holds. So the blocks of a call share no
//! byte, and once it holds none, nothing is lost.

use vstd::prelude::*;
use crate::buddy_alloc::{Arena, arenas_byte_free};
use crate::memory::{
    PTR_NULL, allocation, granted, held, lemma_allocation, lemma_held_stays, lemma_released,
    lemma_same_free_blocks, owned, same_blocks, released, same_free, same_shapes, sound,
};
use crate::space::clear;

verus! {

/// A block that is held: its address, the size that was asked for, and its
/// length.
pub struct Holding {
    /// The address of the block.
    pub ptr: u64,
    /// The size that was asked for.
    pub size: usize,
    /// The length of the block, which is at least the size.
    pub len: int,
}

impl Holding {
    /// Whether the byte at `x` belongs to the block.
    pub open spec fn has(self, x: int) -> bool {
        self.ptr <= x < self.ptr + self.len
    }

    /// Whether the block lies before or after the block `other`.
    pub open spec fn clear_of(self, other: Holding) -> bool {
        self.ptr + self.len <= other.ptr || other.ptr + other.len <= self.ptr
    }
}

/// Whether the arenas `now` account for every byte, given the arenas `before`
/// of the beginning of the call and the blocks that the call holds.
#[verifier::opaque]
pub open spec fn holding(before: Seq<Arena>, now: Seq<Arena>, blocks: Set<Holding>) -> bool {
    &&& sound(now)
    &&& same_shapes(now, before)
    &&& forall|b: Holding| #[trigger]
        blocks.contains(b) ==> {
            &&& held(now, b.ptr, b.size, b.len)
            &&& 0 < b.size <= b.len
            &&& 0 < b.ptr
            &&& b.ptr + b.len <= usize::MAX
        }
    &&& forall|b: Holding, c: Holding|
        #[trigger] blocks.contains(b) && #[trigger] blocks.contains(c) && b != c ==> b.clear_of(c)
    &&& forall|b: Holding, x: int|
        #[trigger] blocks.contains(b) && #[trigger] b.has(x) ==> arenas_byte_free(before, x)
            && !arenas_byte_free(now, x)
    &&& forall|x: int|
        arenas_byte_free(before, x) && !(#[trigger] arenas_byte_free(now, x)) ==> exists|
            b: Holding,
        |
            #[trigger] blocks.contains(b) && b.has(x)
    &&& forall|x: int| #[trigger] arenas_byte_free(now, x) ==> arenas_byte_free(before, x)
}

/// The block that a request of `size` bytes is given by the arenas `now`.
pub open spec fn grant(now: Seq<Arena>, size: usize) -> Holding {
    Holding { ptr: allocation(now, size).0->Ok_0, size, len: granted(now, size) }
}

/// A block that a call holds begins after address zero and does not go round
/// the end of the address space.
pub proof fn lemma_held_range(before: Seq<Arena>, now: Seq<Arena>, blocks: Set<Holding>, b: Holding)
    requires
        holding(before, now, blocks),
        blocks.contains(b),
    ensures
        0 < b.ptr,
        0 < b.size,
        b.ptr + b.size <= usize::MAX,
        sound(now),
{
    reveal(holding);
}

/// A block that a call holds lies in the arenas.
pub proof fn lemma_held_owned(before: Seq<Arena>, now: Seq<Arena>, blocks: Set<Holding>, b: Holding)
    requires
        holding(before, now, blocks),
        blocks.contains(b),
    ensures
        owned(now, b.ptr),
{
    reveal(holding);
    let i = choose|i: int|
        0 <= i < now.len() && (#[trigger] now[i]).in_root(b.ptr as int) && b.size
            <= now[i].max_size();
    assert(now[i].regular());
    assert(now[i].contains(b.ptr as int));
}

/// A call that holds nothing accounts for every byte.
pub proof fn lemma_holding_nothing(arenas: Seq<Arena>)
    requires
        sound(arenas),
    ensures
        holding(arenas, arenas, Set::<Holding>::empty()),
{
    reveal(holding);
    assert forall|i: int| 0 <= i < arenas.len() implies (#[trigger] arenas[i]).with_free(
        arenas[i].free,
    ) == arenas[i] by {}
}

/// A request that is served adds its block to the blocks that the call
/// holds; the new block shares no byte with the others.
pub proof fn lemma_hold(before: Seq<Arena>, now: Seq<Arena>, blocks: Set<Holding>, size: usize)
    requires
        holding(before, now, blocks),
        size > 0,
        allocation(now, size).0 is Ok,
    ensures
        holding(before, allocation(now, size).1, blocks.insert(grant(now, size))),
        forall|b: Holding| #[trigger] blocks.contains(b) ==> b.clear_of(grant(now, size)),
        0 < grant(now, size).ptr,
        size <= grant(now, size).len,
        grant(now, size).ptr + grant(now, size).len <= usize::MAX,
{
    reveal(holding);
    let rest = allocation(now, size).1;
    let fresh = grant(now, size);
    let after = blocks.insert(fresh);
    lemma_allocation(now, size);
    assert forall|b: Holding| #[trigger] blocks.contains(b) implies b.clear_of(fresh) by {
        if !b.clear_of(fresh) {
            let x: int = if b.ptr <= fresh.ptr { fresh.ptr as int } else { b.ptr as int };
            assert(b.has(x));
            assert(arenas_byte_free(now, x));
        }
    }
    assert(same_shapes(rest, before)) by {
        assert forall|i: int| 0 <= i < rest.len() implies (#[trigger] rest[i]).with_free(
            before[i].free,
        ) == before[i] by {
            assert(rest[i].with_free(now[i].free) == now[i]);
            assert(now[i].with_free(before[i].free) == before[i]);
        }
    }
    assert forall|b: Holding| #[trigger] after.contains(b) implies {
        &&& held(rest, b.ptr, b.size, b.len)
        &&& 0 < b.size <= b.len
        &&& 0 < b.ptr
        &&& b.ptr + b.len <= usize::MAX
    } by {
        if b != fresh {
            assert(blocks.contains(b));
            assert forall|x: int| b.ptr <= x < b.ptr + b.len implies !#[trigger] arenas_byte_free(
                rest,
                x,
            ) by {
                assert(b.has(x));
            }
            lemma_held_stays(now, rest, b.ptr, b.size, b.len);
        }
    }
    assert forall|b: Holding, x: int| #[trigger] after.contains(b) && #[trigger] b.has(x) implies arenas_byte_free(
        before,
        x,
    ) && !arenas_byte_free(rest, x) by {
        if b != fresh {
            assert(blocks.contains(b));
        } else {
            assert(arenas_byte_free(now, x));
        }
    }
    assert forall|x: int| arenas_byte_free(before, x) && !(#[trigger] arenas_byte_free(rest, x)) implies exists|
        b: Holding,
    |
        #[trigger] after.contains(b) && b.has(x) by {
        if fresh.has(x) {
            assert(after.contains(fresh) && fresh.has(x));
        } else {
            assert(!arenas_byte_free(now, x));
            let b = choose|b: Holding| #[trigger] blocks.contains(b) && b.has(x);
            assert(after.contains(b) && b.has(x));
        }
    }
}

/// The blocks that a call holds after a request for a buffer of `size`
/// bytes: an empty buffer is no block.
pub open spec fn joined(blocks: Set<Holding>, now: Seq<Arena>, size: usize) -> Set<Holding> {
    if size > 0 {
        blocks.insert(grant(now, size))
    } else {
        blocks
    }
}

/// A request for a buffer that is served: an empty buffer is `PTR_NULL` and
/// changes nothing; any other buffer is a new block that the call holds,
/// clear of the blocks that it held before.
pub proof fn lemma_buffer_joins(before: Seq<Arena>, now: Seq<Arena>, blocks: Set<Holding>, size: usize)
    requires
        holding(before, now, blocks),
        allocation(now, size).0 is Ok,
    ensures
        holding(before, allocation(now, size).1, joined(blocks, now, size)),
        size == 0 ==> allocation(now, size).0->Ok_0 == PTR_NULL && allocation(now, size).1 == now,
        size > 0 ==> grant(now, size).ptr == allocation(now, size).0->Ok_0 && !blocks.contains(
            grant(now, size),
        ),
        size > 0 ==> forall|b: Holding| #[trigger]
            blocks.contains(b) ==> clear(
                grant(now, size).ptr,
                size as int,
                b.ptr,
                b.size as int,
            ) && clear(b.ptr, b.size as int, grant(now, size).ptr, size as int),
{
    reveal(holding);
    if size > 0 {
        lemma_hold(before, now, blocks, size);
        let fresh = grant(now, size);
        assert forall|b: Holding| #[trigger] blocks.contains(b) implies clear(
            fresh.ptr,
            size as int,
            b.ptr,
            b.size as int,
        ) && clear(b.ptr, b.size as int, fresh.ptr, size as int) by {
            assert(b.clear_of(fresh));
        }
        if blocks.contains(fresh) {
            assert(fresh.clear_of(fresh));
        }
    }
}

/// A buffer that is given back: `PTR_NULL` changes nothing, and a block that
/// the call holds leaves the blocks that it holds.
pub proof fn lemma_buffer_leaves(
    before: Seq<Arena>,
    now: Seq<Arena>,
    blocks: Set<Holding>,
    b: Holding,
    ptr: u64,
    size: usize,
)
    requires
        holding(before, now, blocks),
        size == 0 ==> ptr == PTR_NULL,
        size > 0 ==> blocks.contains(b) && b.ptr == ptr && b.size == size,
    ensures
        holding(
            before,
            released(now, ptr, size),
            if size > 0 {
                blocks.remove(b)
            } else {
                blocks
            },
        ),
{
    reveal(holding);
    if size > 0 {
        lemma_unhold(before, now, blocks, b);
    }
}

/// Two buffers that are allocated one after the other for a call that holds
/// the copy of its argument lie clear of the copy and of each other, and once
/// both are given back, the first one first, the call holds the copy alone.
pub proof fn lemma_two_buffers(before: Seq<Arena>, now: Seq<Arena>, root: Holding, s1: usize, s2: usize)
    requires
        holding(before, now, set![root]),
        allocation(now, s1).0 is Ok,
        allocation(allocation(now, s1).1, s2).0 is Ok,
    ensures
        ({
            let (r1, a1) = allocation(now, s1);
            let (r2, a2) = allocation(a1, s2);
            let (v1, v2) = (r1->Ok_0, r2->Ok_0);
            &&& root.ptr + root.size <= usize::MAX
            &&& s1 == 0 ==> v1 == PTR_NULL
            &&& s2 == 0 ==> v2 == PTR_NULL
            &&& s1 > 0 ==> clear(v1, s1 as int, root.ptr, root.size as int)
            &&& s2 > 0 ==> clear(v2, s2 as int, root.ptr, root.size as int)
            &&& s1 > 0 && s2 > 0 ==> clear(v1, s1 as int, v2, s2 as int)
            &&& holding(before, released(released(a2, v1, s1), v2, s2), set![root])
        }),
{
    reveal(holding);
    let (r1, a1) = allocation(now, s1);
    let (r2, a2) = allocation(a1, s2);
    let (v1, v2) = (r1->Ok_0, r2->Ok_0);
    let g1 = grant(now, s1);
    let g2 = grant(a1, s2);
    let blocks1 = joined(set![root], now, s1);
    let blocks2 = joined(blocks1, a1, s2);
    assert(set![root].contains(root));
    lemma_held_range(before, now, set![root], root);
    lemma_buffer_joins(before, now, set![root], s1);
    assert(blocks1.contains(root));
    lemma_buffer_joins(before, a1, blocks1, s2);
    if s1 > 0 {
        assert(blocks1.contains(g1));
        assert(g1.ptr == v1 && g1.size == s1);
        assert(blocks2.contains(g1));
    }
    if s2 > 0 {
        assert(blocks2.contains(g2));
        assert(g2.ptr == v2 && g2.size == s2);
    }
    lemma_buffer_leaves(before, a2, blocks2, g1, v1, s1);
    let blocks3 = if s1 > 0 {
        blocks2.remove(g1)
    } else {
        blocks2
    };
    if s2 > 0 {
        assert(blocks3.contains(g2));
    }
    lemma_buffer_leaves(before, released(a2, v1, s1), blocks3, g2, v2, s2);
    let blocks4 = if s2 > 0 {
        blocks3.remove(g2)
    } else {
        blocks3
    };
    assert(blocks4 =~= set![root]);
}

/// Three buffers that are allocated one after the other for a call that
/// holds the copy of its argument lie clear of the copy and of each other,
/// and once all three are given back, in the order in which they were
/// allocated or the first one last, the call holds the copy alone.
pub proof fn lemma_three_buffers(
    before: Seq<Arena>,
    now: Seq<Arena>,
    root: Holding,
    s1: usize,
    s2: usize,
    s3: usize,
)
    requires
        holding(before, now, set![root]),
        allocation(now, s1).0 is Ok,
        allocation(allocation(now, s1).1, s2).0 is Ok,
        allocation(allocation(allocation(now, s1).1, s2).1, s3).0 is Ok,
    ensures
        ({
            let (r1, a1) = allocation(now, s1);
            let (r2, a2) = allocation(a1, s2);
            let (r3, a3) = allocation(a2, s3);
            let (v1, v2, v3) = (r1->Ok_0, r2->Ok_0, r3->Ok_0);
            &&& root.ptr + root.size <= usize::MAX
            &&& s1 == 0 ==> v1 == PTR_NULL
            &&& s2 == 0 ==> v2 == PTR_NULL
            &&& s3 == 0 ==> v3 == PTR_NULL
            &&& s1 > 0 ==> clear(v1, s1 as int, root.ptr, root.size as int)
            &&& s2 > 0 ==> clear(v2, s2 as int, root.ptr, root.size as int)
            &&& s3 > 0 ==> clear(v3, s3 as int, root.ptr, root.size as int)
            &&& s1 > 0 && s2 > 0 ==> clear(v1, s1 as int, v2, s2 as int)
            &&& s1 > 0 && s3 > 0 ==> clear(v1, s1 as int, v3, s3 as int)
            &&& s2 > 0 && s3 > 0 ==> clear(v2, s2 as int, v3, s3 as int)
            &&& holding(
                before,
                released(released(released(a3, v1, s1), v2, s2), v3, s3),
                set![root],
            )
            &&& holding(
                before,
                released(released(released(a3, v2, s2), v3, s3), v1, s1),
                set![root],
            )
        }),
{
    let (r1, a1) = allocation(now, s1);
    let (r2, a2) = allocation(a1, s2);
    let (r3, a3) = allocation(a2, s3);
    let (v1, v2, v3) = (r1->Ok_0, r2->Ok_0, r3->Ok_0);
    let g1 = grant(now, s1);
    let g2 = grant(a1, s2);
    let g3 = grant(a2, s3);
    let blocks1 = joined(set![root], now, s1);
    let blocks2 = joined(blocks1, a1, s2);
    let blocks3 = joined(blocks2, a2, s3);
    assert(set![root].contains(root));
    lemma_held_range(before, now, set![root], root);
    lemma_buffer_joins(before, now, set![root], s1);
    assert(blocks1.contains(root));
    lemma_buffer_joins(before, a1, blocks1, s2);
    assert(blocks2.contains(root));
    if s1 > 0 {
        assert(blocks1.contains(g1));
        assert(blocks2.contains(g1));
    }
    if s2 > 0 {
        assert(blocks2.contains(g2));
    }
    lemma_buffer_joins(before, a2, blocks2, s3);
    if s1 > 0 {
        assert(blocks3.contains(g1));
    }
    if s2 > 0 {
        assert(blocks3.contains(g2));
    }
    if s3 > 0 {
        assert(blocks3.contains(g3));
    }
    lemma_leave_in_order(before, a3, blocks3, root, g1, s1, g2, s2, g3, s3);
    lemma_leave_in_order(before, a3, blocks3, root, g2, s2, g3, s3, g1, s1);
}

/// Three buffers that a call holds beside the copy of its argument leave one
/// after the other, and the call holds the copy alone.
proof fn lemma_leave_in_order(
    before: Seq<Arena>,
    now: Seq<Arena>,
    blocks: Set<Holding>,
    root: Holding,
    g1: Holding,
    s1: usize,
    g2: Holding,
    s2: usize,
    g3: Holding,
    s3: usize,
)
    requires
        holding(before, now, blocks),
        blocks.contains(root),
        s1 > 0 ==> blocks.contains(g1) && g1.size == s1 && g1 != root,
        s2 > 0 ==> blocks.contains(g2) && g2.size == s2 && g2 != root,
        s3 > 0 ==> blocks.contains(g3) && g3.size == s3 && g3 != root,
        s1 > 0 && s2 > 0 ==> g1 != g2,
        s1 > 0 && s3 > 0 ==> g1 != g3,
        s2 > 0 && s3 > 0 ==> g2 != g3,
        s1 == 0 ==> g1.ptr == PTR_NULL,
        s2 == 0 ==> g2.ptr == PTR_NULL,
        s3 == 0 ==> g3.ptr == PTR_NULL,
        forall|b: Holding|
            blocks.contains(b) ==> b == root || (s1 > 0 && b == g1) || (s2 > 0 && b == g2) || (s3
                > 0 && b == g3),
    ensures
        holding(
            before,
            released(released(released(now, g1.ptr, s1), g2.ptr, s2), g3.ptr, s3),
            set![root],
        ),
{
    lemma_buffer_leaves(before, now, blocks, g1, g1.ptr, s1);
    let left1 = if s1 > 0 {
        blocks.remove(g1)
    } else {
        blocks
    };
    let now1 = released(now, g1.ptr, s1);
    lemma_buffer_leaves(before, now1, left1, g2, g2.ptr, s2);
    let left2 = if s2 > 0 {
        left1.remove(g2)
    } else {
        left1
    };
    let now2 = released(now1, g2.ptr, s2);
    lemma_buffer_leaves(before, now2, left2, g3, g3.ptr, s3);
    let left3 = if s3 > 0 {
        left2.remove(g3)
    } else {
        left2
    };
    assert(left3 =~= set![root]);
}

/// A block that is given back leaves the blocks that the call holds.
pub proof fn lemma_unhold(before: Seq<Arena>, now: Seq<Arena>, blocks: Set<Holding>, b: Holding)
    requires
        holding(before, now, blocks),
        blocks.contains(b),
    ensures
        holding(before, released(now, b.ptr, b.size), blocks.remove(b)),
{
    reveal(holding);
    let back = released(now, b.ptr, b.size);
    let after = blocks.remove(b);
    lemma_released(now, b.ptr, b.size, b.len);
    assert(same_shapes(back, before)) by {
        assert forall|i: int| 0 <= i < back.len() implies (#[trigger] back[i]).with_free(
            before[i].free,
        ) == before[i] by {
            assert(back[i].with_free(now[i].free) == now[i]);
            assert(now[i].with_free(before[i].free) == before[i]);
        }
    }
    assert forall|c: Holding| #[trigger] after.contains(c) implies {
        &&& held(back, c.ptr, c.size, c.len)
        &&& 0 < c.size <= c.len
        &&& 0 < c.ptr
        &&& c.ptr + c.len <= usize::MAX
    } by {
        assert(blocks.contains(c));
        assert(c.clear_of(b));
        assert forall|x: int| c.ptr <= x < c.ptr + c.len implies !#[trigger] arenas_byte_free(
            back,
            x,
        ) by {
            assert(c.has(x));
        }
        lemma_held_stays(now, back, c.ptr, c.size, c.len);
    }
    assert forall|c: Holding, x: int| #[trigger] after.contains(c) && #[trigger] c.has(x) implies arenas_byte_free(
        before,
        x,
    ) && !arenas_byte_free(back, x) by {
        assert(blocks.contains(c));
        assert(c.clear_of(b));
    }
    assert forall|x: int| arenas_byte_free(before, x) && !(#[trigger] arenas_byte_free(back, x)) implies exists|
        c: Holding,
    |
        #[trigger] after.contains(c) && c.has(x) by {
        assert(!arenas_byte_free(now, x));
        let c = choose|c: Holding| #[trigger] blocks.contains(c) && c.has(x);
        assert(c != b);
        assert(after.contains(c) && c.has(x));
    }
    assert forall|x: int| #[trigger] arenas_byte_free(back, x) implies arenas_byte_free(before, x) by {
        if b.has(x) {
        } else {
            assert(arenas_byte_free(now, x));
        }
    }
}

/// Once a call holds no block, the free bytes are those of the beginning of
/// the call, and so are the free blocks: nothing is lost.
pub proof fn lemma_all_back(before: Seq<Arena>, now: Seq<Arena>)
    requires
        holding(before, now, Set::<Holding>::empty()),
    ensures
        sound(now),
        same_free(now, before),
        sound(before) ==> same_blocks(now, before),
{
    reveal(holding);
    if sound(before) {
        assert forall|x: int| arenas_byte_free(now, x) == arenas_byte_free(before, x) by {
            if arenas_byte_free(before, x) && !arenas_byte_free(now, x) {
                let b = choose|b: Holding| #[trigger] Set::<Holding>::empty().contains(b) && b.has(x);
                assert(false);
            }
        }
        lemma_same_free_blocks(now, before);
    }
    assert forall|x: int| arenas_byte_free(now, x) == arenas_byte_free(before, x) by {
        if arenas_byte_free(before, x) && !arenas_byte_free(now, x) {
            let b = choose|b: Holding| #[trigger] Set::<Holding>::empty().contains(b) && b.has(x);
            assert(false);
        }
    }
}

} // verus!
