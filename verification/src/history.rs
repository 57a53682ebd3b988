//! Histories of requests to one arena.
//!
//! What holds of a single request holds of any number of them: as long as
//! every block that is given back is one that was handed out and is still in
//! use, an arena accounts for every byte, and once all blocks are back, it is
//! as it was when it was laid.

use vstd::prelude::*;
use crate::buddy_alloc::{Arena, alloc_addr};

verus! {

/// A request to an arena.
pub enum Request {
    /// A request for `size` bytes aligned to `align`.
    Alloc { size: int, align: int },
    /// The return of the block at `addr` that served a request for `size`
    /// bytes aligned to `align`.
    Dealloc { addr: int, size: int, align: int },
}

/// A block in use: its address, and the size and alignment that were asked
/// for.
pub struct Block {
    /// The address of the block.
    pub addr: int,
    /// The size that was asked for.
    pub size: int,
    /// The alignment that was asked for.
    pub align: int,
}

/// The arena after one request. A request that is not served changes nothing.
pub open spec fn step(a: Arena, r: Request) -> Arena {
    match r {
        Request::Alloc { size, align } => a.after_alloc(size, align),
        Request::Dealloc { addr, size, align } => a.with_free(a.dealloc_result(addr, size, align)),
    }
}

/// The arena after the requests `rs`, in their order.
pub open spec fn run(a: Arena, rs: Seq<Request>) -> Arena
    decreases rs.len(),
{
    if rs.len() == 0 {
        a
    } else {
        step(run(a, rs.drop_last()), rs.last())
    }
}

/// The blocks that are in use after the requests `rs`.
pub open spec fn live(a: Arena, rs: Seq<Request>) -> Set<Block>
    decreases rs.len(),
{
    if rs.len() == 0 {
        Set::empty()
    } else {
        let before = live(a, rs.drop_last());
        match rs.last() {
            Request::Alloc { size, align } => match run(a, rs.drop_last()).alloc_result(size, align) {
                Some((addr, _)) => before.insert(Block { addr, size, align }),
                None => before,
            },
            Request::Dealloc { addr, size, align } => before.remove(Block { addr, size, align }),
        }
    }
}

/// Whether the requests `rs` are paired and fit: every request for a block is
/// served, and every block that is given back is in use when it is given
/// back, under the address, size and alignment under which it was handed out.
pub open spec fn paired(a: Arena, rs: Seq<Request>) -> bool
    decreases rs.len(),
{
    rs.len() == 0 || (paired(a, rs.drop_last()) && match rs.last() {
        Request::Alloc { size, align } => run(a, rs.drop_last()).alloc_result(size, align) is Some,
        Request::Dealloc { addr, size, align } => live(a, rs.drop_last()).contains(
            Block { addr, size, align },
        ),
    })
}

/// Whether the byte at `x` belongs to the block `b`.
pub open spec fn in_block(a: Arena, b: Block, x: int) -> bool {
    b.addr <= x < b.addr + a.request_bytes(b.size, b.align)
}

/// Whether the arena `cur` accounts for every byte of its root block, given
/// the blocks `blocks` in use: it is tidy; every block in use is a block of
/// the level of its request; no two of them share a byte; and a byte is free
/// exactly if it belongs to none of them.
pub open spec fn accounted(cur: Arena, blocks: Set<Block>) -> bool {
    &&& cur.wf()
    &&& cur.tidy()
    &&& forall|b: Block| #[trigger]
        blocks.contains(b) ==> {
            &&& Arena::request_size(b.size, b.align) <= cur.max_size()
            &&& cur.in_root(b.addr)
            &&& cur.block_start(cur.request_level(Arena::request_size(b.size, b.align)), b.addr) == b.addr
            &&& b.addr + cur.request_bytes(b.size, b.align) <= cur.start + cur.max_size()
        }
    &&& forall|b: Block, c: Block, x: int|
        #[trigger] blocks.contains(b) && #[trigger] blocks.contains(c) && in_block(cur, b, x)
            && #[trigger] in_block(cur, c, x) ==> b == c
    &&& forall|b: Block, x: int|
        #[trigger] blocks.contains(b) && #[trigger] in_block(cur, b, x) ==> !cur.byte_free(x)
    &&& forall|x: int|
        cur.in_root(x) && !(#[trigger] cur.byte_free(x)) ==> exists|b: Block|
            #[trigger] blocks.contains(b) && in_block(cur, b, x)
}

/// A request that is served keeps the account.
pub proof fn lemma_alloc_accounted(cur: Arena, blocks: Set<Block>, size: int, align: int)
    requires
        accounted(cur, blocks),
        cur.alloc_result(size, align) is Some,
    ensures
        accounted(
            cur.after_alloc(size, align),
            blocks.insert(Block { addr: alloc_addr(cur, size, align), size, align }),
        ),
{
    let (addr, rest) = cur.alloc_result(size, align)->0;
    let next = cur.after_alloc(size, align);
    let fresh = Block { addr, size, align };
    let after = blocks.insert(fresh);
    let bytes = cur.request_bytes(size, align);
    let req = Arena::request_size(size, align);
    cur.lemma_alloc_result(size, align);
    cur.lemma_level_exists(req);
    let level = cur.request_level(req);
    cur.lemma_take_block_wf(level);
    let (blk, _) = take_block_of(cur, level);
    cur.lemma_block_span(level, blk as int, addr);
    assert(next.request_bytes(size, align) == bytes);
    assert(cur.span_free(addr, bytes));
    assert forall|x: int| in_block(cur, fresh, x) implies cur.byte_free(x) by {
        assert(addr <= x < addr + bytes);
    }
    assert forall|b: Block| #[trigger] after.contains(b) implies {
        &&& Arena::request_size(b.size, b.align) <= next.max_size()
        &&& next.in_root(b.addr)
        &&& next.block_start(next.request_level(Arena::request_size(b.size, b.align)), b.addr) == b.addr
        &&& b.addr + next.request_bytes(b.size, b.align) <= next.start + next.max_size()
    } by {
        if b != fresh {
            assert(blocks.contains(b));
        }
    }
    assert forall|b: Block, c: Block, x: int|
        #[trigger] after.contains(b) && #[trigger] after.contains(c) && in_block(next, b, x)
            && #[trigger] in_block(next, c, x) implies b == c by {
        assert(in_block(cur, b, x) && in_block(cur, c, x));
        if b == fresh && c != fresh {
            assert(blocks.contains(c));
            assert(cur.byte_free(x));
        } else if c == fresh && b != fresh {
            assert(blocks.contains(b));
            assert(cur.byte_free(x));
        } else if b != fresh && c != fresh {
            assert(blocks.contains(b) && blocks.contains(c));
        }
    }
    assert forall|b: Block, x: int|
        #[trigger] after.contains(b) && #[trigger] in_block(next, b, x) implies !next.byte_free(
        x,
    ) by {
        assert(in_block(cur, b, x));
        assert(next.byte_free(x) <==> cur.byte_free(x) && !(addr <= x < addr + bytes));
        if b != fresh {
            assert(blocks.contains(b));
        }
    }
    assert forall|x: int| next.in_root(x) && !(#[trigger] next.byte_free(x)) implies exists|
        b: Block,
    |
        #[trigger] after.contains(b) && in_block(next, b, x) by {
        assert(next.byte_free(x) <==> cur.byte_free(x) && !(addr <= x < addr + bytes));
        if addr <= x < addr + bytes {
            assert(after.contains(fresh) && in_block(next, fresh, x));
        } else {
            assert(!cur.byte_free(x));
            let b = choose|b: Block| #[trigger] blocks.contains(b) && in_block(cur, b, x);
            assert(after.contains(b) && in_block(next, b, x));
        }
    }
}

/// The block that a level hands out and the free lists that remain, for a
/// level that has a block to hand out.
pub open spec fn take_block_of(a: Arena, level: int) -> (u32, Seq<Seq<u32>>) {
    crate::buddy_alloc::take_block(a.free, level)->0
}

/// The return of a block in use keeps the account.
pub proof fn lemma_dealloc_accounted(cur: Arena, blocks: Set<Block>, b: Block)
    requires
        accounted(cur, blocks),
        blocks.contains(b),
    ensures
        accounted(cur.with_free(cur.dealloc_result(b.addr, b.size, b.align)), blocks.remove(b)),
{
    let next = cur.with_free(cur.dealloc_result(b.addr, b.size, b.align));
    let after = blocks.remove(b);
    let bytes = cur.request_bytes(b.size, b.align);
    let req = Arena::request_size(b.size, b.align);
    let level = cur.request_level(req);
    assert(cur.span_used(b.addr, bytes)) by {
        assert forall|x: int| b.addr <= x < b.addr + bytes implies !#[trigger] cur.byte_free(x) by {
            assert(in_block(cur, b, x));
        }
    }
    cur.lemma_dealloc_result(b.addr, b.size, b.align);
    assert(next.request_bytes(b.size, b.align) == bytes);
    assert forall|c: Block| #[trigger] after.contains(c) implies {
        &&& Arena::request_size(c.size, c.align) <= next.max_size()
        &&& next.in_root(c.addr)
        &&& next.block_start(next.request_level(Arena::request_size(c.size, c.align)), c.addr) == c.addr
        &&& c.addr + next.request_bytes(c.size, c.align) <= next.start + next.max_size()
    } by {
        assert(blocks.contains(c));
    }
    assert forall|c: Block, e: Block, x: int|
        #[trigger] after.contains(c) && #[trigger] after.contains(e) && in_block(next, c, x)
            && #[trigger] in_block(next, e, x) implies c == e by {
        assert(blocks.contains(c) && blocks.contains(e));
        assert(in_block(cur, c, x) && in_block(cur, e, x));
    }
    assert forall|c: Block, x: int|
        #[trigger] after.contains(c) && #[trigger] in_block(next, c, x) implies !next.byte_free(
        x,
    ) by {
        assert(blocks.contains(c));
        assert(in_block(cur, c, x));
        assert(next.byte_free(x) <==> cur.byte_free(x) || (cur.in_root(x) && b.addr <= x < b.addr
            + bytes));
        if b.addr <= x < b.addr + bytes {
            assert(in_block(cur, b, x));
        }
    }
    assert forall|x: int| next.in_root(x) && !(#[trigger] next.byte_free(x)) implies exists|
        c: Block,
    |
        #[trigger] after.contains(c) && in_block(next, c, x) by {
        assert(next.byte_free(x) <==> cur.byte_free(x) || (cur.in_root(x) && b.addr <= x < b.addr
            + bytes));
        assert(!cur.byte_free(x));
        let c = choose|c: Block| #[trigger] blocks.contains(c) && in_block(cur, c, x);
        assert(c != b);
        assert(after.contains(c) && in_block(next, c, x));
    }
}

/// Paired requests that fit keep the account, from a fresh arena on.
pub proof fn lemma_paired_accounted(a: Arena, rs: Seq<Request>)
    requires
        a.wf(),
        a.is_fresh(),
        paired(a, rs),
    ensures
        accounted(run(a, rs), live(a, rs)),
    decreases rs.len(),
{
    if rs.len() == 0 {
        a.lemma_fresh_tidy();
        assert forall|x: int| a.in_root(x) && !(#[trigger] a.byte_free(x)) implies exists|
            b: Block,
        |
            #[trigger] live(a, rs).contains(b) && in_block(a, b, x) by {
            assert(a.byte_free(x));
        }
    } else {
        lemma_paired_accounted(a, rs.drop_last());
        let cur = run(a, rs.drop_last());
        let blocks = live(a, rs.drop_last());
        match rs.last() {
            Request::Alloc { size, align } => {
                lemma_alloc_accounted(cur, blocks, size, align);
            },
            Request::Dealloc { addr, size, align } => {
                lemma_dealloc_accounted(cur, blocks, Block { addr, size, align });
            },
        }
    }
}

/// After any sequence of paired requests that fit, once every block is back,
/// a fresh arena is fresh again: its only free block is the root.
pub proof fn lemma_paired_requests_restore(a: Arena, rs: Seq<Request>)
    requires
        a.wf(),
        a.is_fresh(),
        paired(a, rs),
        live(a, rs) == Set::<Block>::empty(),
    ensures
        run(a, rs).is_fresh(),
{
    lemma_paired_accounted(a, rs);
    let end = run(a, rs);
    assert forall|x: int| end.start <= x < end.start + end.max_size() implies #[trigger] end.byte_free(
        x,
    ) by {
        if !end.byte_free(x) {
            let b = choose|b: Block| #[trigger] live(a, rs).contains(b) && in_block(end, b, x);
            assert(false);
        }
    }
    end.lemma_all_free_is_fresh();
}

} // verus!
