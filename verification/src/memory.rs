//! Shadow storage: blocks of host-shared memory for the marshallers, and the
//! arenas from which they come.

use vstd::prelude::*;
use vstd::arithmetic::power2::{pow2, is_pow2, lemma_pow2_pos, lemma2_to64};
use vstd::arithmetic::power2::lemma_pow2_unfold;
use crate::buddy_alloc::{
    Arena, BuddyAllocatorManager, alloc_addr, apart, arenas_ok, clear_of_arenas, first_server,
    lemma_manager_restores,
    lemma_manager_serves, arenas_byte_free, arenas_nonzero, arenas_own, arenas_regular, arenas_tidy,
    arenas_wf,
    lemma_manager_alloc, lemma_manager_alloc_then_dealloc, manager_alloc, manager_dealloc,
    owns_first, same_free_bytes, serves_first,
};
use crate::error::Error;

verus! {

/// The address that stands for "no buffer".
pub const PTR_NULL: u64 = 0;

/// The size in bytes of the leaf blocks of every arena.
pub const LEAF_BLOCK_SIZE: u16 = 16;

/// The least size in bytes of the region that an arena is cut in half from.
pub const MIN_CHUNK: usize = 1024;

/// The size in bytes of a host pointer, to which arenas are aligned.
pub const HOST_POINTER_SIZE: usize = 8;

/// What a request for `size` bytes yields: the address of a block and the
/// arenas as they are left, `PTR_NULL` for an empty request, or
/// `Error::OutOfSpace` where no arena can serve it.
pub open spec fn allocation(arenas: Seq<Arena>, size: usize) -> (Result<u64, Error>, Seq<Arena>) {
    if size == 0 {
        (Ok(PTR_NULL), arenas)
    } else {
        match manager_alloc(arenas, size as int, 1) {
            Some((addr, rest)) => (Ok(addr as u64), rest),
            None => (Err(Error::OutOfSpace(size)), arenas),
        }
    }
}

/// The arenas after the block of `size` bytes at `ptr` has been given back:
/// as they were for `PTR_NULL` and for an address that no arena can hold.
pub open spec fn released(arenas: Seq<Arena>, ptr: u64, size: usize) -> Seq<Arena> {
    if ptr == PTR_NULL || ptr > usize::MAX {
        arenas
    } else {
        manager_dealloc(arenas, ptr as int, size as int, 1)
    }
}

/// Whether a request for `size` bytes is given no block at address zero,
/// which stands for no block.
pub open spec fn serves_nonnull(arenas: Seq<Arena>, size: usize) -> bool {
    size > 0 && manager_alloc(arenas, size as int, 1) is Some ==> alloc_addr(
        arenas[first_server(arenas, size as int, 1)],
        size as int,
        1,
    ) != 0
}

/// Arenas none of which begins at address zero give no request a block at
/// address zero.
pub proof fn lemma_nonzero_serves(arenas: Seq<Arena>, size: usize)
    requires
        arenas_ok(arenas),
        arenas_nonzero(arenas),
    ensures
        serves_nonnull(arenas, size),
{
    if size > 0 && manager_alloc(arenas, size as int, 1) is Some {
        lemma_manager_serves(arenas, size as int, 1);
    }
}

/// Hands out a block of `size` bytes of host-shared memory. An empty request
/// is given `PTR_NULL`, and no block may begin there: no request may be made
/// that an arena at address zero would serve with its first block.
pub fn allocate(manager: &mut BuddyAllocatorManager, size: usize) -> (r: Result<u64, Error>)
    requires
        old(manager).wf(),
        serves_nonnull(old(manager)@, size),
    ensures
        final(manager).wf(),
        arenas_nonzero(old(manager)@) ==> arenas_nonzero(final(manager)@),
        (r, final(manager)@) == allocation(old(manager)@, size),
        r matches Ok(ptr) ==> (ptr == PTR_NULL <==> size == 0),
        arenas_tidy(old(manager)@) ==> arenas_tidy(final(manager)@),
        arenas_wf(old(manager)@) ==> arenas_wf(final(manager)@),
{
    if size > 0 {
        match manager.allocate(size, 1) {
            Ok(ptr) => Ok(ptr as u64),
            Err(_) => Err(Error::OutOfSpace(size)),
        }
    } else {
        Ok(PTR_NULL)
    }
}

/// Gives back the block of `size` bytes at `ptr`. Nothing happens for
/// `PTR_NULL`, nor for an address that lies in no arena.
pub fn free(manager: &mut BuddyAllocatorManager, ptr: u64, size: usize) -> (r: Result<(), Error>)
    requires
        old(manager).wf(),
    ensures
        final(manager).wf(),
        arenas_nonzero(old(manager)@) ==> arenas_nonzero(final(manager)@),
        arenas_wf(old(manager)@) ==> arenas_wf(final(manager)@),
        r == Ok::<(), Error>(()),
        final(manager)@ == released(old(manager)@, ptr, size),
{
    if ptr != PTR_NULL && ptr <= usize::MAX as u64 {
        manager.dealloc(ptr as usize, size, 1);
    }
    Ok(())
}

/// Whether `ptr` is an address of host-shared memory that the arenas manage.
pub open spec fn owned(arenas: Seq<Arena>, ptr: u64) -> bool {
    ptr <= usize::MAX && arenas_own(arenas, ptr as int)
}

/// Whether `ptr` is an address of host-shared memory that the arenas manage.
pub fn owns(manager: &BuddyAllocatorManager, ptr: u64) -> (r: bool)
    ensures
        r == owned(manager@, ptr),
{
    ptr <= usize::MAX as u64 && manager.owns(ptr as usize)
}

/// The first of `p`, `2p`, `4p`, ... that is at least `x`.
pub open spec fn doubled_up(p: nat, x: nat) -> nat
    decreases 2 * x - p,
{
    if p >= x || p == 0 {
        p
    } else {
        doubled_up(2 * p, x)
    }
}

/// The least power of two that is at least `x`.
pub open spec fn round_up_pow2(x: nat) -> nat {
    doubled_up(1, x)
}

/// The size in bytes of the region that is asked of the host when a request
/// for `size` bytes finds no room: twice the least power of two that holds
/// the request, and two kilobytes at least.
pub open spec fn chunk_of(size: nat) -> nat {
    if size <= MIN_CHUNK {
        2 * MIN_CHUNK as nat
    } else {
        2 * round_up_pow2(size)
    }
}

/// Doubling a power of two up to `x` ends at a power of two that is at least
/// `x` and whose half is less.
pub proof fn lemma_doubled_up(p: nat, x: nat)
    requires
        is_pow2(p as int),
        p == 1 || p / 2 < x,
    ensures
        is_pow2(doubled_up(p, x) as int),
        x <= doubled_up(p, x),
        p <= doubled_up(p, x),
        doubled_up(p, x) == 1 || doubled_up(p, x) / 2 < x,
    decreases 2 * x - p,
{
    reveal(is_pow2);
    if p < x {
        lemma_doubled_up(2 * p, x);
    }
}

/// The least power of two that is at least `x`, or `None` where it does not
/// fit in `usize`.
pub fn next_power_of_two(x: usize) -> (r: Option<usize>)
    ensures
        r is Some <==> round_up_pow2(x as nat) <= usize::MAX,
        r matches Some(p) ==> p == round_up_pow2(x as nat),
{
    let mut p: usize = 1;
    proof {
        reveal(is_pow2);
    }
    while p < x
        invariant
            1 <= p,
            doubled_up(p as nat, x as nat) == round_up_pow2(x as nat),
            is_pow2(p as int),
            p == 1 || p / 2 < x,
        decreases 2 * x - p,
    {
        if p > usize::MAX / 2 {
            proof {
                reveal(is_pow2);
                lemma_doubled_up((2 * p) as nat, x as nat);
            }
            return None;
        }
        proof {
            reveal(is_pow2);
        }
        p = p * 2;
    }
    Some(p)
}

/// The size in bytes of the region to ask of the host for a request of `size`
/// bytes that found no room, or `None` where that size does not fit in
/// `usize`.
pub fn chunk_size(size: usize) -> (r: Option<usize>)
    ensures
        r is Some <==> chunk_of(size as nat) <= usize::MAX,
        r matches Some(chunk) ==> chunk == chunk_of(size as nat),
{
    let half: usize = if size <= MIN_CHUNK {
        MIN_CHUNK
    } else {
        match next_power_of_two(size) {
            Some(p) => p,
            None => {
                return None;
            },
        }
    };
    half.checked_mul(2)
}

/// What follows a step that may have found no room in the arenas.
#[derive(Debug, PartialEq, Eq)]
pub enum Step<T> {
    /// The step is done, with this result.
    Done(T),
    /// The request for `size` bytes found no room: a region of `chunk` bytes
    /// is to be asked of the host and made an arena, and the step taken
    /// again.
    Grow { size: usize, chunk: usize },
    /// The step failed for good.
    Fail(Error),
}

/// What follows a step that ended with `r`: a request that found no room
/// asks for a new arena, as long as the region for it has a size; any other
/// failure is final.
pub open spec fn next_step<T>(r: Result<T, Error>) -> Step<T> {
    match r {
        Ok(done) => Step::Done(done),
        Err(Error::OutOfSpace(size)) => if chunk_of(size as nat) <= usize::MAX {
            Step::Grow { size, chunk: chunk_of(size as nat) as usize }
        } else {
            Step::Fail(Error::MulOverflow)
        },
        Err(e) => Step::Fail(e),
    }
}

/// Decides what follows a step that ended with `r`.
pub fn step_after<T>(r: Result<T, Error>) -> (s: Step<T>)
    ensures
        s == next_step(r),
{
    match r {
        Ok(done) => Step::Done(done),
        Err(Error::OutOfSpace(size)) => match chunk_size(size) {
            Some(chunk) => Step::Grow { size, chunk },
            None => Step::Fail(Error::MulOverflow),
        },
        Err(e) => Step::Fail(e),
    }
}

/// A power of two that is at least sixteen is sixteen times a power of two.
pub proof fn lemma_pow2_leaves(c: int)
    requires
        is_pow2(c),
        c >= 16,
    ensures
        exists|k: nat| c == 16 * #[trigger] pow2(k),
    decreases c,
{
    reveal_with_fuel(is_pow2, 5);
    if c == 16 {
        lemma2_to64();
        assert(c == 16 * pow2(0));
    } else {
        assert(c / 2 >= 16);
        lemma_pow2_leaves(c / 2);
        let k = choose|k: nat| c / 2 == 16 * #[trigger] pow2(k);
        lemma_pow2_unfold(k + 1);
        assert(c == 16 * pow2(k + 1));
    }
}

/// The arena that is laid over a region of `chunk_of(size)` bytes is exactly
/// as long as its root block.
pub proof fn lemma_chunk_arena(size: nat, region: int)
    ensures
        Arena::fresh(region, region + chunk_of(size), LEAF_BLOCK_SIZE as int).max_size()
            == chunk_of(size),
        size <= chunk_of(size),
{
    reveal(is_pow2);
    lemma_doubled_up(1, size);
    let chunk = chunk_of(size) as int;
    assert(is_pow2(chunk)) by {
        reveal_with_fuel(is_pow2, 13);
    }
    lemma_pow2_leaves(chunk);
    let k = choose|k: nat| chunk == 16 * #[trigger] pow2(k);
    if k > 0 {
        lemma_pow2_unfold(k);
    }
    assert(Arena::levels_are(chunk, 16, k));
    Arena::lemma_levels_unique(chunk, 16, k, Arena::levels_of(chunk, 16));
}

/// A block that is given back as it was handed out leaves the free bytes of
/// tidy, regular arenas as they were: nothing is lost.
pub proof fn lemma_allocate_then_free(arenas: Seq<Arena>, size: usize)
    requires
        arenas_wf(arenas),
        arenas_tidy(arenas),
        arenas_regular(arenas),
        allocation(arenas, size).0 is Ok,
    ensures
        ({
            let (ptr, rest) = allocation(arenas, size);
            let back = released(rest, ptr->Ok_0, size);
            &&& arenas_wf(rest)
            &&& arenas_tidy(rest)
            &&& arenas_regular(rest)
            &&& arenas_wf(back)
            &&& arenas_tidy(back)
            &&& arenas_regular(back)
            &&& same_free_bytes(back, arenas)
        }),
{
    if size > 0 {
        lemma_manager_alloc_then_dealloc(arenas, size as int, 1);
    }
}

/// A block that is given back as it was handed out leaves arenas that share
/// no byte and are regular exactly as they were: every free list holds the
/// same blocks at the same places.
pub proof fn lemma_allocate_then_free_lists(arenas: Seq<Arena>, size: usize)
    requires
        arenas_wf(arenas),
        arenas_regular(arenas),
        allocation(arenas, size).0 is Ok,
    ensures
        ({
            let (ptr, rest) = allocation(arenas, size);
            released(rest, ptr->Ok_0, size) == arenas
        }),
{
    if size > 0 {
        lemma_manager_serves(arenas, size as int, 1);
        lemma_manager_restores(arenas, size as int, 1);
        let k = crate::buddy_alloc::first_server(arenas, size as int, 1);
        assert(arenas[k].wf());
    }
}

/// Whether two rows of arenas have the same dimensions, arena by arena.
pub open spec fn same_shapes(a: Seq<Arena>, b: Seq<Arena>) -> bool {
    &&& a.len() == b.len()
    &&& forall|i: int|
        0 <= i < a.len() ==> (#[trigger] a[i]).with_free(b[i].free) == b[i]
}

/// Whether the arenas are in order, share no byte, and are tidy and regular.
pub open spec fn sound(arenas: Seq<Arena>) -> bool {
    arenas_wf(arenas) && arenas_tidy(arenas) && arenas_regular(arenas)
}

/// Whether the `len` bytes from `ptr` are a block that serves a request of
/// `size` bytes and is in use: it is a block of the level of the request in
/// one of the arenas, and none of its bytes is free.
pub open spec fn held(arenas: Seq<Arena>, ptr: u64, size: usize, len: int) -> bool {
    exists|i: int|
        {
            &&& 0 <= i < arenas.len()
            &&& (#[trigger] arenas[i]).in_root(ptr as int)
            &&& size <= arenas[i].max_size()
            &&& size > 0
            &&& arenas[i].block_start(arenas[i].request_level(Arena::request_size(size as int, 1)), ptr as int)
                == ptr
            &&& len == arenas[i].request_bytes(size as int, 1)
            &&& arenas[i].span_used(ptr as int, len)
        }
}

/// The length of the block that a request of `size` bytes is given.
pub open spec fn granted(arenas: Seq<Arena>, size: usize) -> int {
    let i = choose|i: int| serves_first(arenas, size as int, 1, i);
    arenas[i].request_bytes(size as int, 1)
}

/// Whether two rows of arenas hold the same free blocks on every level of
/// every arena, in whatever order.
pub open spec fn same_blocks(a: Seq<Arena>, b: Seq<Arena>) -> bool {
    &&& a.len() == b.len()
    &&& forall|i: int, l: int, c: u32|
        0 <= i < a.len() && 0 <= l <= a[i].levels ==> (#[trigger] a[i].free[l].contains(c)
            <==> b[i].free[l].contains(c))
}

/// Sound arenas over the same ranges with the same free bytes hold the same
/// free blocks: free blocks are as large as they can be, so the free bytes
/// fix them, but for their order on the lists.
pub proof fn lemma_same_free_blocks(a: Seq<Arena>, b: Seq<Arena>)
    requires
        sound(a),
        sound(b),
        same_shapes(a, b),
        same_free(a, b),
    ensures
        same_blocks(a, b),
{
    assert forall|i: int, l: int, c: u32| 0 <= i < a.len() && 0 <= l <= a[i].levels implies (
    #[trigger] a[i].free[l].contains(c) <==> b[i].free[l].contains(c)) by {
        assert(a[i].with_free(b[i].free) == b[i]);
        assert(b[i].with_free(a[i].free) == a[i]);
        assert forall|x: int| a[i].byte_free(x) == b[i].byte_free(x) by {
            if a[i].byte_free(x) {
                assert(arenas_byte_free(a, x));
                assert(arenas_byte_free(b, x));
                let j = choose|j: int| 0 <= j < b.len() && (#[trigger] b[j]).byte_free(x);
                assert(a[j].with_free(b[j].free) == b[j]);
                if j < i {
                    assert(apart(a, j, i));
                } else if i < j {
                    assert(apart(a, i, j));
                }
            }
            if b[i].byte_free(x) {
                assert(arenas_byte_free(b, x));
                assert(arenas_byte_free(a, x));
                let j = choose|j: int| 0 <= j < a.len() && (#[trigger] a[j]).byte_free(x);
                assert(a[j].with_free(b[j].free) == b[j]);
                if j < i {
                    assert(apart(a, j, i));
                } else if i < j {
                    assert(apart(a, i, j));
                }
            }
        }
        a[i].lemma_same_blocks(b[i]);
    }
}

/// What a request that is served does to sound arenas: the block that is
/// handed out holds the request, lies in memory that was free and is free no
/// longer, and no other byte changes.
pub proof fn lemma_allocation(arenas: Seq<Arena>, size: usize)
    requires
        sound(arenas),
        size > 0,
        allocation(arenas, size).0 is Ok,
    ensures
        ({
            let ptr = allocation(arenas, size).0->Ok_0;
            let rest = allocation(arenas, size).1;
            let len = granted(arenas, size);
            &&& sound(rest)
            &&& same_shapes(rest, arenas)
            &&& 0 < ptr
            &&& size <= len
            &&& ptr + len <= usize::MAX
            &&& held(rest, ptr, size, len)
            &&& forall|x: int| ptr <= x < ptr + len ==> #[trigger] arenas_byte_free(arenas, x)
            &&& forall|x: int|
                #![trigger arenas_byte_free(rest, x)]
                arenas_byte_free(rest, x) <==> arenas_byte_free(arenas, x) && !(ptr <= x < ptr
                    + len)
        }),
{
    let i = choose|i: int| serves_first(arenas, size as int, 1, i);
    let arena = arenas[i];
    let (addr, rest) = manager_alloc(arenas, size as int, 1)->0;
    let taken = arena.after_alloc(size as int, 1);
    let len = arena.request_bytes(size as int, 1);
    lemma_manager_alloc_then_dealloc(arenas, size as int, 1);
    arena.lemma_alloc_result(size as int, 1);
    arena.lemma_level_exists(Arena::request_size(size as int, 1));
    let level = arena.request_level(Arena::request_size(size as int, 1));
    arena.lemma_take_block_wf(level);
    let (blk, _) = crate::buddy_alloc::take_block(arena.free, level)->0;
    arena.lemma_block_span(level, blk as int, addr);
    assert(taken.block_start(level, addr) == addr);
    assert(rest == arenas.update(i, taken));
    assert(taken.in_root(addr));
    assert(taken.span_used(addr, len)) by {
        assert forall|x: int| addr <= x < addr + len implies !#[trigger] taken.byte_free(x) by {
            assert(taken.byte_free(x) <==> arena.byte_free(x) && !(addr <= x < addr + len));
        }
    }
    assert(held(rest, addr as u64, size, len)) by {
        assert(rest[i] == taken);
    }
    assert forall|x: int| addr <= x < addr + len implies #[trigger] arenas_byte_free(arenas, x) by {
        assert(arena.byte_free(x));
    }
    assert forall|x: int|
        #![trigger arenas_byte_free(rest, x)]
        arenas_byte_free(rest, x) <==> arenas_byte_free(arenas, x) && !(addr <= x < addr + len) by {
        if arenas_byte_free(rest, x) {
            let k = choose|k: int| 0 <= k < rest.len() && (#[trigger] rest[k]).byte_free(x);
            if k == i {
                assert(taken.byte_free(x) <==> arena.byte_free(x) && !(addr <= x < addr + len));
            } else {
                assert(rest[k] == arenas[k]);
                assert(apart(arenas, k, i) || apart(arenas, i, k));
            }
            assert(arenas[k].byte_free(x));
        }
        if arenas_byte_free(arenas, x) && !(addr <= x < addr + len) {
            let k = choose|k: int| 0 <= k < arenas.len() && (#[trigger] arenas[k]).byte_free(x);
            if k == i {
                assert(taken.byte_free(x) <==> arena.byte_free(x) && !(addr <= x < addr + len));
            } else {
                assert(rest[k] == arenas[k]);
            }
            assert(rest[k].byte_free(x));
        }
    }
    assert(same_shapes(rest, arenas)) by {
        assert forall|k: int| 0 <= k < rest.len() implies (#[trigger] rest[k]).with_free(
            arenas[k].free,
        ) == arenas[k] by {
            if k != i {
                assert(rest[k] == arenas[k]);
            }
        }
    }
}

/// What giving back a block in use does to sound arenas: its bytes become
/// free, and no other byte changes.
pub proof fn lemma_released(arenas: Seq<Arena>, ptr: u64, size: usize, len: int)
    requires
        sound(arenas),
        held(arenas, ptr, size, len),
    ensures
        ({
            let back = released(arenas, ptr, size);
            &&& sound(back)
            &&& same_shapes(back, arenas)
            &&& forall|x: int|
                #![trigger arenas_byte_free(back, x)]
                arenas_byte_free(back, x) <==> arenas_byte_free(arenas, x) || (ptr <= x < ptr + len)
        }),
{
    let i = choose|i: int|
        {
            &&& 0 <= i < arenas.len()
            &&& (#[trigger] arenas[i]).in_root(ptr as int)
            &&& size <= arenas[i].max_size()
            &&& size > 0
            &&& arenas[i].block_start(arenas[i].request_level(Arena::request_size(size as int, 1)), ptr as int)
                == ptr
            &&& len == arenas[i].request_bytes(size as int, 1)
            &&& arenas[i].span_used(ptr as int, len)
        };
    let arena = arenas[i];
    assert(arena.wf() && arena.tidy() && arena.regular());
    assert(owns_first(arenas, ptr as int, i)) by {
        assert forall|j: int| 0 <= j < i implies !(#[trigger] arenas[j]).contains(ptr as int) by {
            assert(apart(arenas, j, i));
            assert(arenas[j].wf());
        }
    }
    let k = choose|k: int| owns_first(arenas, ptr as int, k);
    assert(k == i) by {
        if k < i {
            assert(!arenas[k].contains(ptr as int));
        } else if i < k {
            assert(arenas[i].contains(ptr as int));
        }
    }
    arena.lemma_dealloc_result(ptr as int, size as int, 1);
    let restored = arena.with_free(arena.dealloc_result(ptr as int, size as int, 1));
    let back = released(arenas, ptr, size);
    assert(back == arenas.update(i, restored));
    arena.lemma_level_exists(Arena::request_size(size as int, 1));
    let level = arena.request_level(Arena::request_size(size as int, 1));
    arena.lemma_block_of_within(level, ptr as int);
    arena.lemma_block_span(level, arena.block_of(level, ptr as int), ptr as int);
    arena.lemma_block_bytes_monotone(0, arena.request_level(Arena::request_size(size as int, 1)));
    assert forall|a: int, b: int| 0 <= a < b < back.len() implies #[trigger] apart(back, a, b) by {
        assert(apart(arenas, a, b));
    }
    assert forall|j: int| 0 <= j < back.len() implies (#[trigger] back[j]).wf() && back[j].tidy()
        && back[j].regular() && back[j].with_free(arenas[j].free) == arenas[j] by {
        if j != i {
            assert(back[j] == arenas[j]);
        }
    }
    assert forall|x: int|
        #![trigger arenas_byte_free(back, x)]
        arenas_byte_free(back, x) <==> arenas_byte_free(arenas, x) || (ptr <= x < ptr + len) by {
        assert(restored.byte_free(x) <==> arena.byte_free(x) || (arena.in_root(x) && ptr <= x < ptr
            + len));
        if arenas_byte_free(back, x) {
            let j = choose|j: int| 0 <= j < back.len() && (#[trigger] back[j]).byte_free(x);
            if j != i {
                assert(back[j] == arenas[j]);
                assert(arenas[j].byte_free(x));
            } else if !(ptr <= x < ptr + len) {
                assert(arenas[i].byte_free(x));
            }
        }
        if arenas_byte_free(arenas, x) {
            let j = choose|j: int| 0 <= j < arenas.len() && (#[trigger] arenas[j]).byte_free(x);
            if j != i {
                assert(back[j] == arenas[j]);
            }
            assert(back[j].byte_free(x));
        }
        if ptr <= x < ptr + len {
            assert(back[i].byte_free(x));
        }
    }
}

/// A block in use stays in use as long as none of its bytes becomes free.
pub proof fn lemma_held_stays(before: Seq<Arena>, after: Seq<Arena>, ptr: u64, size: usize, len: int)
    requires
        held(before, ptr, size, len),
        same_shapes(after, before),
        forall|x: int| ptr <= x < ptr + len ==> !#[trigger] arenas_byte_free(after, x),
    ensures
        held(after, ptr, size, len),
{
    let i = choose|i: int|
        {
            &&& 0 <= i < before.len()
            &&& (#[trigger] before[i]).in_root(ptr as int)
            &&& size <= before[i].max_size()
            &&& size > 0
            &&& before[i].block_start(before[i].request_level(Arena::request_size(size as int, 1)), ptr as int)
                == ptr
            &&& len == before[i].request_bytes(size as int, 1)
            &&& before[i].span_used(ptr as int, len)
        };
    assert(after[i].with_free(before[i].free) == before[i]);
    assert(after[i].span_used(ptr as int, len)) by {
        assert forall|x: int| ptr <= x < ptr + len implies !#[trigger] after[i].byte_free(x) by {
            if after[i].byte_free(x) {
                assert(arenas_byte_free(after, x));
            }
        }
    }
    assert(after[i].in_root(ptr as int));
}

/// Whether two rows of arenas have the same free bytes, seen as one memory.
pub open spec fn same_free(a: Seq<Arena>, b: Seq<Arena>) -> bool {
    forall|x: int| arenas_byte_free(a, x) == arenas_byte_free(b, x)
}

/// A block and a second one that is allocated while the first is in use
/// share no byte, and once both are given back, the second first, the free
/// bytes of sound arenas are what they were: nothing is lost.
pub proof fn lemma_nested_blocks(arenas: Seq<Arena>, outer: usize, inner: usize)
    requires
        sound(arenas),
        outer > 0,
        allocation(arenas, outer).0 is Ok,
        allocation(allocation(arenas, outer).1, inner).0 is Ok,
    ensures
        ({
            let (first, a1) = allocation(arenas, outer);
            let (second, a2) = allocation(a1, inner);
            let (p, v) = (first->Ok_0, second->Ok_0);
            let a3 = released(a2, v, inner);
            let a4 = released(a3, p, outer);
            &&& sound(a1)
            &&& sound(a2)
            &&& sound(a3)
            &&& sound(a4)
            &&& same_free(a4, arenas)
            &&& 0 < p
            &&& p + outer <= usize::MAX
            &&& inner == 0 ==> v == PTR_NULL && a2 == a1
            &&& inner > 0 ==> 0 < v && v + inner <= usize::MAX && (v + inner <= p || p + outer <= v)
        }),
{
    let (first, a1) = allocation(arenas, outer);
    let (second, a2) = allocation(a1, inner);
    let (p, v) = (first->Ok_0, second->Ok_0);
    let lp = granted(arenas, outer);
    lemma_allocation(arenas, outer);
    if inner == 0 {
        lemma_released(a1, p, outer, lp);
        let a4 = released(a1, p, outer);
        assert forall|x: int| arenas_byte_free(a4, x) == arenas_byte_free(arenas, x) by {
            assert(arenas_byte_free(a4, x) <==> arenas_byte_free(a1, x) || (p <= x < p + lp));
            assert(arenas_byte_free(a1, x) <==> arenas_byte_free(arenas, x) && !(p <= x < p + lp));
            if p <= x < p + lp {
                assert(arenas_byte_free(arenas, x));
            }
        }
    } else {
        let lv = granted(a1, inner);
        lemma_allocation(a1, inner);
        assert(v + lv <= p || p + lp <= v) by {
            if !(v + lv <= p || p + lp <= v) {
                let x: int = if p <= v { v as int } else { p as int };
                assert(arenas_byte_free(a1, x));
                assert(arenas_byte_free(a1, x) <==> arenas_byte_free(arenas, x) && !(p <= x < p
                    + lp));
            }
        }
        assert forall|x: int| p <= x < p + lp implies !#[trigger] arenas_byte_free(a2, x) by {
            assert(arenas_byte_free(a2, x) <==> arenas_byte_free(a1, x) && !(v <= x < v + lv));
            assert(arenas_byte_free(a1, x) <==> arenas_byte_free(arenas, x) && !(p <= x < p + lp));
        }
        lemma_held_stays(a1, a2, p, outer, lp);
        lemma_released(a2, v, inner, lv);
        let a3 = released(a2, v, inner);
        assert forall|x: int| p <= x < p + lp implies !#[trigger] arenas_byte_free(a3, x) by {
            assert(arenas_byte_free(a3, x) <==> arenas_byte_free(a2, x) || (v <= x < v + lv));
        }
        lemma_held_stays(a2, a3, p, outer, lp);
        lemma_released(a3, p, outer, lp);
        let a4 = released(a3, p, outer);
        assert forall|x: int| arenas_byte_free(a4, x) == arenas_byte_free(arenas, x) by {
            assert(arenas_byte_free(a4, x) <==> arenas_byte_free(a3, x) || (p <= x < p + lp));
            assert(arenas_byte_free(a3, x) <==> arenas_byte_free(a2, x) || (v <= x < v + lv));
            assert(arenas_byte_free(a2, x) <==> arenas_byte_free(a1, x) && !(v <= x < v + lv));
            assert(arenas_byte_free(a1, x) <==> arenas_byte_free(arenas, x) && !(p <= x < p + lp));
            if p <= x < p + lp {
                assert(arenas_byte_free(arenas, x));
            }
            if v <= x < v + lv {
                assert(arenas_byte_free(a1, x));
            }
        }
    }
}

/// Makes the region of `chunk_of(size)` bytes that the host handed out at
/// `region` an arena, for a request of `size` bytes that found no room. The
/// region is refused where it begins at address zero, which stands for no
/// block, cannot be an arena or shares a byte with one; once it is an
/// arena, the request is served.
pub fn untrusted_mem_alloc(manager: &mut BuddyAllocatorManager, size: usize, region: usize) -> (r:
    Result<(), Error>)
    requires
        old(manager).wf(),
    ensures
        final(manager).wf(),
        arenas_nonzero(old(manager)@) ==> arenas_nonzero(final(manager)@),
        arenas_tidy(old(manager)@) ==> arenas_tidy(final(manager)@),
        arenas_wf(old(manager)@) ==> arenas_wf(final(manager)@),
        arenas_regular(old(manager)@) ==> arenas_regular(final(manager)@),
        match r {
            Ok(_) => {
                &&& chunk_of(size as nat) <= usize::MAX
                &&& final(manager)@ == old(manager)@.push(
                    Arena::fresh(
                        region as int,
                        region + chunk_of(size as nat),
                        LEAF_BLOCK_SIZE as int,
                    ),
                )
                &&& allocation(final(manager)@, size).0 is Ok
            },
            Err(e) => {
                &&& final(manager)@ == old(manager)@
                &&& e == if chunk_of(size as nat) > usize::MAX {
                    Error::MulOverflow
                } else {
                    Error::RegionRefused
                }
            },
        },
        r is Ok <==> {
            &&& chunk_of(size as nat) <= usize::MAX
            &&& 0 < region
            &&& region + chunk_of(size as nat) <= usize::MAX
            &&& Arena::region_ok(
                region as int,
                region + chunk_of(size as nat),
                LEAF_BLOCK_SIZE as int,
            )
            &&& clear_of_arenas(old(manager)@, region as int, region + chunk_of(size as nat))
        },
{
    match chunk_size(size) {
        None => Err(Error::MulOverflow),
        Some(chunk) => {
            if region == 0 || chunk > usize::MAX - region || !manager.clear_of(
                region,
                region + chunk,
            ) {
                return Err(Error::RegionRefused);
            }
            proof {
                lemma_chunk_arena(size as nat, region as int);
            }
            if manager.init(region, chunk, LEAF_BLOCK_SIZE) {
                proof {
                    let arenas = manager@;
                    let arena = arenas.last();
                    assert forall|i: int| 0 <= i < arenas.len() implies (arenas_nonzero(
                        old(manager)@,
                    ) ==> (#[trigger] arenas[i]).start > 0) && (arenas_regular(old(manager)@)
                        ==> arenas[i].regular()) by {
                        if i < old(manager)@.len() {
                            assert(arenas[i] == old(manager)@[i]);
                        }
                    }
                    reveal(is_pow2);
                    lemma_doubled_up(1, size as nat);
                    if size > 0 {
                        lemma_pow2_pos(0);
                        assert(arena.free[0] == seq![0u32]);
                        arena.lemma_level_exists(Arena::request_size(size as int, 1));
                        assert(arena.free[0].len() > 0);
                        assert(arena.can_serve(size as int, 1));
                        lemma_manager_alloc(arenas, size as int, 1);
                    }
                }
                Ok(())
            } else {
                Err(Error::RegionRefused)
            }
        },
    }
}

} // verus!
