//! Calls whose driver leaves the copy of the argument as it finds it.
//!
//! With such a driver the two halves of a call undo each other: the trusted
//! memory holds what it held before the call, and the arenas have the free
//! bytes that they had. The laws are stated for the two halves of a deep call
//! as the dispatcher runs them, structure by structure.

use vstd::prelude::*;
use crate::buddy_alloc::Arena;
use crate::error::Error;
use crate::holdings::{
    Holding, grant, holding, joined, lemma_all_back, lemma_buffer_joins, lemma_buffer_leaves,
    lemma_held_range, lemma_hold, lemma_holding_nothing, lemma_two_buffers, lemma_unhold,
};
use crate::i915::execbuffer::{
    EXEC_FENCE_SIZE, EXEC_OBJECT2_SIZE, array_copied, drm_i915_gem_execbuffer2,
};
use crate::i915::context::drm_i915_gem_context_param;
use crate::i915::pread::{transfer_allocated, transfer_copied, transfer_freed};
use crate::i915::version::drm_i915_getparam;
use crate::i915::{Deep, Direction, exec2_finished, exec2_result};
use crate::memory::{PTR_NULL, allocation, released, same_blocks, same_free, sound};
use crate::shadow::{ShadowView, array_size, size_of_u64};
use crate::space::{
    Bytes, at, byte_at, clear, copied, lemma_copied_alike, lemma_copied_byte, lemma_copied_from,
    lemma_copied_same, lemma_kept_bytes, lemma_kept_u32, lemma_kept_u64, lemma_mirrors_back,
    lemma_mirrors_copied, lemma_mirrors_kept, lemma_mirrors_none, lemma_mirrors_part,
    lemma_mirrors_u32, lemma_offset, lemma_same_u64, lemma_with_u64, mirrors, offset, same_bytes,
    u32_at, u64_at, with_u64, within,
};

verus! {

/// The length in bytes of an array that was allocated: nothing for an array
/// without elements.
pub open spec fn array_len(element: usize, count: u32) -> usize {
    if count > 0 {
        match array_size(element, count as usize) {
            Ok(size) => size,
            Err(_) => 0,
        }
    } else {
        0
    }
}

/// The untrusted side after the alloc phase and the copy out of a structure
/// whose copy lies at `ptr`, where both succeed.
pub open spec fn mirrored(kind: Deep, h: ShadowView, t: Bytes, arg: u64, ptr: u64) -> Option<
    ShadowView,
> {
    let (r1, h1) = kind.allocated(h, ptr, t, arg);
    let (r2, b2) = kind.copy_result(h1.bytes, ptr, t, arg, Direction::t2u);
    if r1 is Ok && r2 is Ok {
        Some(ShadowView { arenas: h1.arenas, bytes: b2 })
    } else {
        None
    }
}

/// Whether the copy back leaves the trusted memory as it was, where the
/// driver leaves the copy of the argument alone.
pub open spec fn comes_back(kind: Deep, h: ShadowView, t: Bytes, arg: u64, ptr: u64) -> bool {
    mirrored(kind, h, t, arg, ptr) matches Some(m) ==> {
        let (r, back) = kind.copy_result(t, arg, m.bytes, ptr, Direction::u2t);
        r is Ok && same_bytes(back, t)
    }
}

/// Whether the free phase gives back all that the alloc phase allocated,
/// where the driver leaves the copy of the argument alone: of the blocks of
/// the call, only the copy of the argument itself is still held.
pub open spec fn gives_back(
    kind: Deep,
    before: Seq<Arena>,
    h: ShadowView,
    t: Bytes,
    arg: u64,
    root: Holding,
) -> bool {
    mirrored(kind, h, t, arg, root.ptr) matches Some(m) ==> {
        let (r, after) = kind.freed(m, root.ptr);
        r is Ok && after.bytes == m.bytes && holding(before, after.arenas, set![root])
    }
}

/// The untrusted side when the alloc phase of a deep call begins: the copy of
/// the argument is allocated, and the memory is as it was.
pub open spec fn begun(kind: Deep, h: ShadowView) -> ShadowView {
    ShadowView { arenas: allocation(h.arenas, kind.size()).1, bytes: h.bytes }
}

/// A deep call whose structure comes back, and whose driver leaves the copy
/// of the argument alone, leaves the trusted memory as it was.
pub proof fn lemma_exec2_comes_back(kind: Deep, h: ShadowView, t: Bytes, arg: u64)
    requires
        exec2_result(kind, h, t, arg).0 is Ok,
        comes_back(kind, begun(kind, h), t, arg, grant(h.arenas, kind.size()).ptr),
    ensures
        ({
            let (ptr, shadow) = exec2_result(kind, h, t, arg);
            same_bytes(exec2_finished(kind, t, arg, shadow, ptr->Ok_0).1, t)
        }),
{
}

/// A deep call whose structure gives back, whose copy back succeeds and whose
/// driver leaves the copy of the argument alone ends well and leaves the free
/// bytes of the arenas as they were: nothing is lost.
pub proof fn lemma_exec2_gives_back(kind: Deep, h: ShadowView, t: Bytes, arg: u64)
    requires
        sound(h.arenas),
        exec2_result(kind, h, t, arg).0 is Ok,
        gives_back(kind, h.arenas, begun(kind, h), t, arg, grant(h.arenas, kind.size())),
        ({
            let (ptr, shadow) = exec2_result(kind, h, t, arg);
            kind.copy_result(t, arg, shadow.bytes, ptr->Ok_0, Direction::u2t).0 is Ok
        }),
    ensures
        ({
            let (ptr, shadow) = exec2_result(kind, h, t, arg);
            let (done, back, after) = exec2_finished(kind, t, arg, shadow, ptr->Ok_0);
            &&& done is Ok
            &&& sound(after.arenas)
            &&& same_free(after.arenas, h.arenas)
            &&& same_blocks(after.arenas, h.arenas)
        }),
{
    let root = grant(h.arenas, kind.size());
    let (ptr, shadow) = exec2_result(kind, h, t, arg);
    let (done, back, after) = exec2_finished(kind, t, arg, shadow, ptr->Ok_0);
    let m = mirrored(kind, begun(kind, h), t, arg, root.ptr)->0;
    assert(shadow == m);
    let freed = kind.freed(m, root.ptr).1;
    lemma_unhold(h.arenas, freed.arenas, set![root], root);
    assert(set![root].remove(root) =~= Set::<Holding>::empty());
    lemma_all_back(h.arenas, after.arenas);
}

/// The copy of the argument of a deep call is a block that the call holds,
/// and the only one, when the alloc phase begins.
pub proof fn lemma_root_held(kind: Deep, h: ShadowView)
    requires
        sound(h.arenas),
        allocation(h.arenas, kind.size()).0 is Ok,
    ensures
        holding(h.arenas, begun(kind, h).arenas, set![grant(h.arenas, kind.size())]),
        grant(h.arenas, kind.size()).size == kind.size(),
        kind.size() >= 16,
{
    lemma_holding_nothing(h.arenas);
    lemma_hold(h.arenas, h.arenas, Set::<Holding>::empty(), kind.size());
    assert(Set::<Holding>::empty().insert(grant(h.arenas, kind.size())) =~= set![
        grant(h.arenas, kind.size()),
    ]);
}

/// What allocating one buffer for a call that holds the copy of its argument
/// does: an empty buffer is `PTR_NULL` and nothing is allocated; any other
/// buffer is a new block, clear of the copy; and once the buffer is given
/// back, the call holds the copy alone.
pub proof fn lemma_buffer_held(before: Seq<Arena>, now: Seq<Arena>, root: Holding, n: usize)
    requires
        holding(before, now, set![root]),
        allocation(now, n).0 is Ok,
    ensures
        ({
            let (v, rest) = allocation(now, n);
            &&& root.ptr + root.size <= usize::MAX
            &&& n == 0 ==> v->Ok_0 == PTR_NULL && rest == now
            &&& n > 0 ==> clear(v->Ok_0, n as int, root.ptr, root.size as int)
            &&& holding(before, released(rest, v->Ok_0, n), set![root])
        }),
{
    let blocks = joined(set![root], now, n);
    let buffer = grant(now, n);
    assert(set![root].contains(root));
    lemma_held_range(before, now, set![root], root);
    lemma_buffer_joins(before, now, set![root], n);
    lemma_buffer_leaves(before, allocation(now, n).1, blocks, buffer, buffer.ptr, n);
    if n > 0 {
        assert(blocks.remove(buffer) =~= set![root]);
    }
}

/// What copying an array does, for an array whose size can be computed.
pub proof fn lemma_array_copied(d: Bytes, dp: u64, s: Bytes, sp: u64, element: usize, count: u32)
    requires
        count > 0 ==> array_size(element, count as usize) is Ok,
    ensures
        array_copied(d, dp, s, sp, element, count) == (
            Ok::<(), Error>(()),
            if count > 0 {
                copied(d, u64_at(d, dp), s, u64_at(s, sp), array_len(element, count) as nat)
            } else {
                d
            },
        ),
{
}

/// The copy of a transfer after the first half: it points to its buffer, and
/// holds the scalar fields of the argument; where the buffer travels out, it
/// holds the bytes of the buffer of the argument.
pub proof fn lemma_transfer_mirrored(bytes: Bytes, p: u64, v: u64, t: Bytes, arg: u64, out: bool)
    requires
        p + 32 <= 0x1_0000_0000_0000_0000,
        size_of_u64(u64_at(t, at(arg, 16))) > 0 ==> clear(
            v,
            size_of_u64(u64_at(t, at(arg, 16))) as int,
            p,
            32,
        ),
    ensures
        ({
            let n = size_of_u64(u64_at(t, at(arg, 16)));
            let m = transfer_copied(with_u64(bytes, at(p, 24), v), p, t, arg, out);
            &&& u64_at(m, at(p, 24)) == v
            &&& u64_at(m, at(p, 16)) == u64_at(t, at(arg, 16))
            &&& forall|i: int|
                0 <= i < 24 ==> byte_at(m, #[trigger] at(p, i)) == byte_at(t, at(arg, i))
            &&& out ==> forall|i: int|
                0 <= i < n ==> byte_at(m, #[trigger] at(v, i)) == byte_at(
                    t,
                    at(u64_at(t, at(arg, 24)), i),
                )
        }),
{
    reveal(transfer_copied);
    let n = size_of_u64(u64_at(t, at(arg, 16)));
    let data = u64_at(t, at(arg, 24));
    let b1 = with_u64(bytes, at(p, 24), v);
    let b2 = copied(b1, p, t, arg, 24);
    lemma_with_u64(bytes, at(p, 24), v);
    lemma_kept_u64(b1, p, t, arg, 24, at(p, 24));
    lemma_scalars_mirrored(b1, p, t, arg, 24, 16);
    lemma_copied_from(b1, p, t, arg, 24);
    if out && u64_at(t, at(arg, 16)) > 0 {
        let b3 = copied(b2, v, t, data, n as nat);
        if n > 0 {
            lemma_kept_u64(b2, v, t, data, n as nat, at(p, 24));
            lemma_kept_u64(b2, v, t, data, n as nat, at(p, 16));
            lemma_kept_bytes(b2, v, t, data, n as nat, p, 24);
        }
        lemma_copied_from(b2, v, t, data, n as nat);
    }
}

/// A write to a buffer object comes back.
pub proof fn lemma_pwrite_comes_back(before: Seq<Arena>, h: ShadowView, t: Bytes, arg: u64, root: Holding)
    requires
        holding(before, h.arenas, set![root]),
        root.size == 32,
    ensures
        comes_back(Deep::Pwrite, h, t, arg, root.ptr),
        gives_back(Deep::Pwrite, before, h, t, arg, root),
{
    reveal(Deep::allocated);
    reveal(Deep::copy_result);
    reveal(Deep::freed);
    reveal(transfer_allocated);
    reveal(transfer_freed);
    let n = size_of_u64(u64_at(t, at(arg, 16)));
    assert(set![root].contains(root));
    if allocation(h.arenas, n).0 is Ok {
        let v = allocation(h.arenas, n).0->Ok_0;
        lemma_buffer_held(before, h.arenas, root, n);
        lemma_transfer_mirrored(h.bytes, root.ptr, v, t, arg, true);
        let m = transfer_copied(with_u64(h.bytes, at(root.ptr, 24), v), root.ptr, t, arg, true);
        assert(transfer_copied(t, arg, m, root.ptr, false) == copied(t, arg, m, root.ptr, 24)) by {
            reveal(transfer_copied);
        }
        lemma_copied_same(t, arg, m, root.ptr, 24);
    }
}

/// A read from a buffer object gives back all that it allocated; where the
/// driver leaves the copy of the argument alone, the trusted memory changes
/// in the buffer of the argument only, which takes what the buffer of the
/// copy holds.
pub proof fn lemma_pread_comes_back(before: Seq<Arena>, h: ShadowView, t: Bytes, arg: u64, root: Holding)
    requires
        holding(before, h.arenas, set![root]),
        root.size == 32,
    ensures
        gives_back(Deep::Pread, before, h, t, arg, root),
        mirrored(Deep::Pread, h, t, arg, root.ptr) matches Some(m) ==> ({
            let (r, back) = Deep::Pread.copy_result(t, arg, m.bytes, root.ptr, Direction::u2t);
            let n = size_of_u64(u64_at(t, at(arg, 16)));
            let data = u64_at(t, at(arg, 24));
            let shadow_data = u64_at(m.bytes, at(root.ptr, 24));
            &&& r is Ok
            &&& forall|a: u64| !within(data, n as int, a) ==> byte_at(back, a) == byte_at(t, a)
            &&& forall|i: int|
                0 <= i < n ==> byte_at(back, #[trigger] at(data, i)) == byte_at(
                    m.bytes,
                    at(shadow_data, i),
                )
        }),
{
    reveal(Deep::allocated);
    reveal(Deep::copy_result);
    reveal(Deep::freed);
    reveal(transfer_allocated);
    reveal(transfer_freed);
    let n = size_of_u64(u64_at(t, at(arg, 16)));
    let data = u64_at(t, at(arg, 24));
    assert(set![root].contains(root));
    if allocation(h.arenas, n).0 is Ok {
        let v = allocation(h.arenas, n).0->Ok_0;
        lemma_buffer_held(before, h.arenas, root, n);
        lemma_transfer_mirrored(h.bytes, root.ptr, v, t, arg, false);
        let m = transfer_copied(with_u64(h.bytes, at(root.ptr, 24), v), root.ptr, t, arg, false);
        let t1 = copied(t, arg, m, root.ptr, 24);
        lemma_copied_same(t, arg, m, root.ptr, 24);
        lemma_same_u64(t1, t, at(arg, 24));
        let back = transfer_copied(t, arg, m, root.ptr, true);
        assert(back == if u64_at(m, at(root.ptr, 16)) > 0 {
            copied(t1, data, m, v, n as nat)
        } else {
            t1
        }) by {
            reveal(transfer_copied);
        }
        assert forall|a: u64| !within(data, n as int, a) implies byte_at(back, a) == byte_at(
            t,
            a,
        ) by {
            lemma_copied_byte(t1, data, m, v, n as nat, a);
        }
        lemma_copied_from(t1, data, m, v, n as nat);
    }
}

/// A request for a parameter of the driver comes back and gives back.
pub proof fn lemma_getparam_comes_back(before: Seq<Arena>, h: ShadowView, t: Bytes, arg: u64, root: Holding)
    requires
        holding(before, h.arenas, set![root]),
        root.size == 16,
    ensures
        comes_back(Deep::GetParam, h, t, arg, root.ptr),
        gives_back(Deep::GetParam, before, h, t, arg, root),
{
    reveal(Deep::allocated);
    reveal(Deep::copy_result);
    reveal(Deep::freed);
    reveal(drm_i915_getparam::allocated);
    reveal(drm_i915_getparam::copy_result);
    let p = root.ptr;
    if allocation(h.arenas, 4).0 is Ok {
        let v = allocation(h.arenas, 4).0->Ok_0;
        let value = u64_at(t, at(arg, 8));
        lemma_buffer_held(before, h.arenas, root, 4);
        let b1 = with_u64(h.bytes, at(p, 8), v);
        let b2 = copied(b1, p, t, arg, 4);
        let b3 = copied(b2, v, t, value, 4);
        lemma_with_u64(h.bytes, at(p, 8), v);
        lemma_kept_u64(b1, p, t, arg, 4, at(p, 8));
        lemma_copied_from(b1, p, t, arg, 4);
        lemma_kept_u64(b2, v, t, value, 4, at(p, 8));
        lemma_kept_bytes(b2, v, t, value, 4, p, 4);
        lemma_copied_from(b2, v, t, value, 4);
        let t1 = copied(t, arg, b3, p, 4);
        lemma_copied_same(t, arg, b3, p, 4);
        lemma_same_u64(t1, t, at(arg, 8));
        lemma_copied_same(t, value, b3, v, 4);
        lemma_copied_alike(t1, t, value, b3, v, 4);
    }
}

/// The copy of a parameter of a context after the first half: it holds the
/// scalar fields of the argument; where the value has a size, it points to
/// its buffer, which holds the bytes of the value; where it has none, it
/// holds the value itself.
pub proof fn lemma_context_param_mirrored(bytes: Bytes, p: u64, v: u64, t: Bytes, arg: u64)
    requires
        p + 24 <= 0x1_0000_0000_0000_0000,
        u32_at(t, at(arg, 4)) > 0 ==> clear(v, u32_at(t, at(arg, 4)) as int, p, 24),
        !drm_i915_gem_context_param::nests(t, arg),
    ensures
        ({
            let n = u32_at(t, at(arg, 4));
            let (r, m) = drm_i915_gem_context_param::copy_result(
                with_u64(bytes, at(p, 16), v),
                p,
                t,
                arg,
                Direction::t2u,
            );
            &&& r is Ok
            &&& u32_at(m, at(p, 4)) == n
            &&& u64_at(m, at(p, 8)) == u64_at(t, at(arg, 8))
            &&& forall|i: int|
                0 <= i < 16 ==> byte_at(m, #[trigger] at(p, i)) == byte_at(t, at(arg, i))
            &&& n > 0 ==> u64_at(m, at(p, 16)) == v
            &&& n > 0 ==> forall|i: int|
                0 <= i < n ==> byte_at(m, #[trigger] at(v, i)) == byte_at(
                    t,
                    at(u64_at(t, at(arg, 16)), i),
                )
            &&& n == 0 ==> forall|i: int|
                0 <= i < 8 ==> byte_at(m, #[trigger] at(at(p, 16), i)) == byte_at(
                    t,
                    at(at(arg, 16), i),
                )
        }),
{
    reveal(drm_i915_gem_context_param::copy_result);
    reveal(drm_i915_gem_context_param::copied_with);
    let n = u32_at(t, at(arg, 4));
    let value = u64_at(t, at(arg, 16));
    let b1 = with_u64(bytes, at(p, 16), v);
    let b2 = copied(b1, p, t, arg, 16);
    lemma_with_u64(bytes, at(p, 16), v);
    lemma_kept_u64(b1, p, t, arg, 16, at(p, 16));
    lemma_scalars_mirrored_u32(b1, p, t, arg, 16, 4);
    lemma_scalars_mirrored(b1, p, t, arg, 16, 8);
    lemma_copied_from(b1, p, t, arg, 16);
    if n > 0 {
        lemma_kept_u64(b2, v, t, value, n as nat, at(p, 8));
        lemma_kept_u64(b2, v, t, value, n as nat, at(p, 16));
        lemma_kept_u32(b2, v, t, value, n as nat, at(p, 4));
        lemma_kept_bytes(b2, v, t, value, n as nat, p, 16);
        lemma_copied_from(b2, v, t, value, n as nat);
    } else {
        lemma_kept_u64(b2, at(p, 16), t, at(arg, 16), 8, at(p, 8));
        lemma_kept_u32(b2, at(p, 16), t, at(arg, 16), 8, at(p, 4));
        lemma_kept_bytes(b2, at(p, 16), t, at(arg, 16), 8, p, 16);
        lemma_copied_from(b2, at(p, 16), t, at(arg, 16), 8);
    }
}

/// A call that reads or sets a parameter of a context whose value is not
/// looked into comes back and gives back.
pub proof fn lemma_plain_param_comes_back(
    before: Seq<Arena>,
    h: ShadowView,
    t: Bytes,
    arg: u64,
    root: Holding,
)
    requires
        holding(before, h.arenas, set![root]),
        root.size == 24,
        !drm_i915_gem_context_param::nests(t, arg),
    ensures
        comes_back(Deep::ContextParam, h, t, arg, root.ptr),
        gives_back(Deep::ContextParam, before, h, t, arg, root),
        mirrored(Deep::ContextParam, h, t, arg, root.ptr) matches Some(m)
            ==> !drm_i915_gem_context_param::nests(m.bytes, root.ptr),
{
    reveal(Deep::allocated);
    reveal(Deep::copy_result);
    reveal(Deep::freed);
    reveal(drm_i915_gem_context_param::allocated);
    reveal(drm_i915_gem_context_param::freed);
    reveal(drm_i915_gem_context_param::allocated_with);
    reveal(drm_i915_gem_context_param::freed_with);
    let p = root.ptr;
    let n = u32_at(t, at(arg, 4));
    let value = u64_at(t, at(arg, 16));
    assert(set![root].contains(root));
    if allocation(h.arenas, n as usize).0 is Ok {
        let v = allocation(h.arenas, n as usize).0->Ok_0;
        lemma_buffer_held(before, h.arenas, root, n as usize);
        lemma_context_param_mirrored(h.bytes, p, v, t, arg);
        let m = drm_i915_gem_context_param::copy_result(
            with_u64(h.bytes, at(p, 16), v),
            p,
            t,
            arg,
            Direction::t2u,
        ).1;
        assert(Deep::ContextParam.copy_result(
            with_u64(h.bytes, at(p, 16), v),
            p,
            t,
            arg,
            Direction::t2u,
        ).1 == m);
        lemma_context_param_back(t, arg, m, p, v);
    }
}

/// The copy back of a parameter of a context from a copy that holds what the
/// argument holds leaves the trusted memory as it was.
pub proof fn lemma_context_param_back(t: Bytes, arg: u64, m: Bytes, p: u64, v: u64)
    requires
        forall|i: int| 0 <= i < 16 ==> byte_at(m, #[trigger] at(p, i)) == byte_at(t, at(arg, i)),
        u32_at(m, at(p, 4)) == u32_at(t, at(arg, 4)),
        u32_at(t, at(arg, 4)) > 0 ==> u64_at(m, at(p, 16)) == v,
        u32_at(t, at(arg, 4)) > 0 ==> forall|i: int|
            0 <= i < u32_at(t, at(arg, 4)) ==> byte_at(m, #[trigger] at(v, i)) == byte_at(
                t,
                at(u64_at(t, at(arg, 16)), i),
            ),
        u32_at(t, at(arg, 4)) == 0 ==> forall|i: int|
            0 <= i < 8 ==> byte_at(m, #[trigger] at(at(p, 16), i)) == byte_at(
                t,
                at(at(arg, 16), i),
            ),
        !drm_i915_gem_context_param::nests(m, p),
    ensures
        drm_i915_gem_context_param::copy_result(t, arg, m, p, Direction::u2t).0 is Ok,
        same_bytes(drm_i915_gem_context_param::copy_result(t, arg, m, p, Direction::u2t).1, t),
{
    reveal(drm_i915_gem_context_param::copy_result);
    reveal(drm_i915_gem_context_param::copied_with);
    let n = u32_at(t, at(arg, 4));
    let value = u64_at(t, at(arg, 16));
    if n > 0 {
        let t1 = copied(t, arg, m, p, 16);
        lemma_copied_same(t, arg, m, p, 16);
        lemma_same_u64(t1, t, at(arg, 16));
        lemma_copied_same(t, value, m, v, n as nat);
        lemma_copied_alike(t1, t, value, m, v, n as nat);
    } else {
        let t1 = copied(t, at(arg, 4), m, at(p, 4), 4);
        assert forall|i: int| 0 <= i < 4 implies byte_at(m, #[trigger] at(at(p, 4), i)) == byte_at(
            t,
            at(at(arg, 4), i),
        ) by {
            assert(at(at(p, 4), i) == at(p, 4 + i));
            assert(at(at(arg, 4), i) == at(arg, 4 + i));
        }
        lemma_copied_same(t, at(arg, 4), m, at(p, 4), 4);
        lemma_copied_same(t, at(arg, 16), m, at(p, 16), 8);
        lemma_copied_alike(t1, t, at(arg, 16), m, at(p, 16), 8);
    }
}

/// A request for a parameter of the driver that the driver leaves alone
/// leaves the trusted memory as it was, and gives back all that it
/// allocated.
pub proof fn lemma_getparam_loopback(h: ShadowView, t: Bytes, arg: u64)
    requires
        sound(h.arenas),
        exec2_result(Deep::GetParam, h, t, arg).0 is Ok,
    ensures
        ({
            let (ptr, shadow) = exec2_result(Deep::GetParam, h, t, arg);
            let (done, back, after) = exec2_finished(Deep::GetParam, t, arg, shadow, ptr->Ok_0);
            &&& done is Ok
            &&& same_bytes(back, t)
            &&& sound(after.arenas)
            &&& same_free(after.arenas, h.arenas)
            &&& same_blocks(after.arenas, h.arenas)
        }),
{
    let kind = Deep::GetParam;
    lemma_root_held(kind, h);
    lemma_getparam_comes_back(h.arenas, begun(kind, h), t, arg, grant(h.arenas, kind.size()));
    lemma_exec2_comes_back(kind, h, t, arg);
    lemma_exec2_gives_back(kind, h, t, arg);
}

/// A write to a buffer object that the driver leaves alone leaves the trusted
/// memory as it was, and gives back all that it allocated.
pub proof fn lemma_pwrite_loopback(h: ShadowView, t: Bytes, arg: u64)
    requires
        sound(h.arenas),
        exec2_result(Deep::Pwrite, h, t, arg).0 is Ok,
    ensures
        ({
            let (ptr, shadow) = exec2_result(Deep::Pwrite, h, t, arg);
            let (done, back, after) = exec2_finished(Deep::Pwrite, t, arg, shadow, ptr->Ok_0);
            &&& done is Ok
            &&& same_bytes(back, t)
            &&& sound(after.arenas)
            &&& same_free(after.arenas, h.arenas)
            &&& same_blocks(after.arenas, h.arenas)
        }),
{
    let kind = Deep::Pwrite;
    lemma_root_held(kind, h);
    lemma_pwrite_comes_back(h.arenas, begun(kind, h), t, arg, grant(h.arenas, kind.size()));
    lemma_exec2_comes_back(kind, h, t, arg);
    lemma_exec2_gives_back(kind, h, t, arg);
}

/// A read from a buffer object gives back all that it allocated, whatever it
/// reads; where the driver leaves the copy of the argument alone, the trusted
/// memory changes in the buffer of the argument only, which takes what the
/// buffer of the copy holds.
pub proof fn lemma_pread_loopback(h: ShadowView, t: Bytes, arg: u64)
    requires
        sound(h.arenas),
        exec2_result(Deep::Pread, h, t, arg).0 is Ok,
    ensures
        ({
            let (ptr, shadow) = exec2_result(Deep::Pread, h, t, arg);
            let (done, back, after) = exec2_finished(Deep::Pread, t, arg, shadow, ptr->Ok_0);
            let n = size_of_u64(u64_at(t, at(arg, 16)));
            let data = u64_at(t, at(arg, 24));
            let shadow_data = u64_at(shadow.bytes, at(ptr->Ok_0, 24));
            &&& done is Ok
            &&& sound(after.arenas)
            &&& same_free(after.arenas, h.arenas)
            &&& same_blocks(after.arenas, h.arenas)
            &&& forall|a: u64| !within(data, n as int, a) ==> byte_at(back, a) == byte_at(t, a)
            &&& forall|i: int|
                0 <= i < n ==> byte_at(back, #[trigger] at(data, i)) == byte_at(
                    shadow.bytes,
                    at(shadow_data, i),
                )
        }),
{
    let kind = Deep::Pread;
    lemma_root_held(kind, h);
    lemma_pread_comes_back(h.arenas, begun(kind, h), t, arg, grant(h.arenas, kind.size()));
    lemma_exec2_gives_back(kind, h, t, arg);
}

/// The 64-bit number at `off` bytes into scalar fields that were copied is
/// that of the source.
pub proof fn lemma_scalars_mirrored(d: Bytes, dst: u64, s: Bytes, src: u64, len: nat, off: int)
    requires
        0 <= off,
        off + 8 <= len <= 0x1_0000_0000_0000_0000,
    ensures
        u64_at(copied(d, dst, s, src, len), at(dst, off)) == u64_at(s, at(src, off)),
{
    let moved = copied(d, dst, s, src, len);
    assert forall|a: u64| within(at(dst, off), 8, a) implies byte_at(moved, a) == byte_at(
        s,
        at(at(src, off), offset(at(dst, off), a)),
    ) by {
        lemma_copied_byte(d, dst, s, src, len, a);
        let i = offset(at(dst, off), a);
        lemma_offset(at(dst, off), a, i);
        lemma_offset(dst, a, off + i);
    }
    lemma_moved_u64(moved, at(dst, off), s, at(src, off));
}

/// Eight bytes that are those of a 64-bit number of another memory are that
/// number.
pub proof fn lemma_moved_u64(m: Bytes, addr: u64, s: Bytes, src: u64)
    requires
        forall|a: u64|
            within(addr, 8, a) ==> byte_at(m, a) == byte_at(s, at(src, offset(addr, a))),
    ensures
        u64_at(m, addr) == u64_at(s, src),
{
    reveal(u32_at);
    reveal(u64_at);
    lemma_offset(addr, addr, 0);
    lemma_offset(addr, at(addr, 1), 1);
    lemma_offset(addr, at(addr, 2), 2);
    lemma_offset(addr, at(addr, 3), 3);
    lemma_offset(addr, at(addr, 4), 4);
    lemma_offset(addr, at(at(addr, 4), 1), 5);
    lemma_offset(addr, at(at(addr, 4), 2), 6);
    lemma_offset(addr, at(at(addr, 4), 3), 7);
    assert(at(src, 5) == at(at(src, 4), 1));
    assert(at(src, 6) == at(at(src, 4), 2));
    assert(at(src, 7) == at(at(src, 4), 3));
}

/// Four bytes that are those of a 32-bit number of another memory are that
/// number.
pub proof fn lemma_moved_u32(m: Bytes, addr: u64, s: Bytes, src: u64)
    requires
        forall|a: u64|
            within(addr, 4, a) ==> byte_at(m, a) == byte_at(s, at(src, offset(addr, a))),
    ensures
        u32_at(m, addr) == u32_at(s, src),
{
    reveal(u32_at);
    lemma_offset(addr, addr, 0);
    lemma_offset(addr, at(addr, 1), 1);
    lemma_offset(addr, at(addr, 2), 2);
    lemma_offset(addr, at(addr, 3), 3);
}

/// The 32-bit number at `off` bytes into scalar fields that were copied is
/// that of the source.
pub proof fn lemma_scalars_mirrored_u32(d: Bytes, dst: u64, s: Bytes, src: u64, len: nat, off: int)
    requires
        0 <= off,
        off + 4 <= len <= 0x1_0000_0000_0000_0000,
    ensures
        u32_at(copied(d, dst, s, src, len), at(dst, off)) == u32_at(s, at(src, off)),
{
    let moved = copied(d, dst, s, src, len);
    assert forall|a: u64| within(at(dst, off), 4, a) implies byte_at(moved, a) == byte_at(
        s,
        at(at(src, off), offset(at(dst, off), a)),
    ) by {
        lemma_copied_byte(d, dst, s, src, len, a);
        let i = offset(at(dst, off), a);
        lemma_offset(at(dst, off), a, i);
        lemma_offset(dst, a, off + i);
    }
    lemma_moved_u32(moved, at(dst, off), s, at(src, off));
}

/// Whether the copy of a submission at `p` points to the arrays at `v1` and
/// `v2`.
pub open spec fn exec_points(m: Bytes, p: u64, v1: u64, v2: u64) -> bool {
    u64_at(m, p) == v1 && u64_at(m, at(p, 32)) == v2
}

/// A copy into the scalar fields of the copy of a submission, or into an
/// array that lies clear of the copy, leaves the pointers of the copy as
/// they are.
pub proof fn lemma_exec_points_kept(
    d: Bytes,
    dst: u64,
    s: Bytes,
    src: u64,
    len: nat,
    p: u64,
    v1: u64,
    v2: u64,
)
    requires
        len <= 0x1_0000_0000_0000_0000,
        exec_points(d, p, v1, v2),
        len > 0 ==> clear(p, 8, dst, len as int) && clear(at(p, 32), 8, dst, len as int),
    ensures
        exec_points(copied(d, dst, s, src, len), p, v1, v2),
{
    if len > 0 {
        lemma_kept_u64(d, dst, s, src, len, p);
        lemma_kept_u64(d, dst, s, src, len, at(p, 32));
    }
}

/// The scalar fields of a submission but the number of fences, once copied,
/// mirror those of the source.
pub proof fn lemma_exec_scalars(d: Bytes, p: u64, t: Bytes, arg: u64, v1: u64, v2: u64)
    requires
        p + 64 <= 0x1_0000_0000_0000_0000,
        exec_points(d, p, v1, v2),
    ensures
        ({
            let m = copied(copied(d, at(p, 8), t, at(arg, 8), 20), at(p, 40), t, at(arg, 40), 24);
            &&& exec_points(m, p, v1, v2)
            &&& mirrors(m, at(p, 8), t, at(arg, 8), 20)
            &&& mirrors(m, at(p, 40), t, at(arg, 40), 24)
            &&& u32_at(m, at(p, 8)) == u32_at(t, at(arg, 8))
        }),
{
    let d1 = copied(d, at(p, 8), t, at(arg, 8), 20);
    let d2 = copied(d1, at(p, 40), t, at(arg, 40), 24);
    lemma_exec_points_kept(d, at(p, 8), t, at(arg, 8), 20, p, v1, v2);
    lemma_exec_points_kept(d1, at(p, 40), t, at(arg, 40), 24, p, v1, v2);
    lemma_mirrors_copied(d, at(p, 8), t, at(arg, 8), 20);
    lemma_mirrors_kept(d1, at(p, 40), t, at(arg, 40), 24, at(p, 8), t, at(arg, 8), 20);
    lemma_mirrors_copied(d1, at(p, 40), t, at(arg, 40), 24);
    lemma_mirrors_part(d2, at(p, 8), t, at(arg, 8), 20, 0, 4);
    assert(at(at(p, 8), 0) == at(p, 8) && at(at(arg, 8), 0) == at(arg, 8));
    lemma_mirrors_u32(d2, at(p, 8), t, at(arg, 8));
}

/// The number of fences of a submission, once copied, completes the mirror of
/// the scalar fields before the pointer to the fences.
pub proof fn lemma_exec_count(d: Bytes, p: u64, t: Bytes, arg: u64, v1: u64, v2: u64)
    requires
        p + 64 <= 0x1_0000_0000_0000_0000,
        exec_points(d, p, v1, v2),
        mirrors(d, at(p, 8), t, at(arg, 8), 20),
        mirrors(d, at(p, 40), t, at(arg, 40), 24),
    ensures
        ({
            let m = copied(d, at(p, 28), t, at(arg, 28), 4);
            &&& exec_points(m, p, v1, v2)
            &&& mirrors(m, at(p, 8), t, at(arg, 8), 24)
            &&& mirrors(m, at(p, 40), t, at(arg, 40), 24)
            &&& u32_at(m, at(p, 28)) == u32_at(t, at(arg, 28))
        }),
{
    let m = copied(d, at(p, 28), t, at(arg, 28), 4);
    lemma_exec_points_kept(d, at(p, 28), t, at(arg, 28), 4, p, v1, v2);
    lemma_mirrors_kept(d, at(p, 28), t, at(arg, 28), 4, at(p, 8), t, at(arg, 8), 20);
    lemma_mirrors_kept(d, at(p, 28), t, at(arg, 28), 4, at(p, 40), t, at(arg, 40), 24);
    lemma_mirrors_copied(d, at(p, 28), t, at(arg, 28), 4);
    lemma_mirrors_u32(m, at(p, 28), t, at(arg, 28));
    reveal(mirrors);
    assert forall|i: int| 0 <= i < 24 implies byte_at(m, #[trigger] at(at(p, 8), i)) == byte_at(
        t,
        at(at(arg, 8), i),
    ) by {
        if i >= 20 {
            assert(at(at(p, 8), i) == at(at(p, 28), i - 20));
            assert(at(at(arg, 8), i) == at(at(arg, 28), i - 20));
        }
    }
}

/// Once the pointers to its two arrays have been written, the copy of a
/// submission points to them.
pub proof fn lemma_exec_pointers(bytes: Bytes, p: u64, v1: u64, v2: u64)
    requires
        p + 64 <= 0x1_0000_0000_0000_0000,
    ensures
        exec_points(with_u64(with_u64(bytes, p, v1), at(p, 32), v2), p, v1, v2),
{
    let b0 = with_u64(bytes, p, v1);
    let b1 = with_u64(b0, at(p, 32), v2);
    lemma_with_u64(bytes, p, v1);
    lemma_with_u64(b0, at(p, 32), v2);
    assert forall|a: u64| within(p, 8, a) implies byte_at(b1, a) == byte_at(b0, a) by {}
    lemma_same_u64(b1, b0, p);
}

/// An array that is copied into a buffer clear of the copy of a submission
/// and of the other array leaves what the copy holds as it is, and mirrors
/// its source.
pub proof fn lemma_exec_array(
    d: Bytes,
    p: u64,
    t: Bytes,
    arg: u64,
    v1: u64,
    v2: u64,
    v: u64,
    data: u64,
    n: usize,
    other: u64,
    other_data: u64,
    other_len: usize,
    scalars: int,
)
    requires
        p + 64 <= 0x1_0000_0000_0000_0000,
        scalars == 20 || scalars == 24,
        exec_points(d, p, v1, v2),
        mirrors(d, at(p, 8), t, at(arg, 8), scalars),
        mirrors(d, at(p, 40), t, at(arg, 40), 24),
        mirrors(d, other, t, other_data, other_len as int),
        n > 0 ==> clear(v, n as int, p, 64),
        n > 0 && other_len > 0 ==> clear(other, other_len as int, v, n as int),
    ensures
        ({
            let m = copied(d, v, t, data, n as nat);
            &&& exec_points(m, p, v1, v2)
            &&& mirrors(m, at(p, 8), t, at(arg, 8), scalars)
            &&& mirrors(m, at(p, 40), t, at(arg, 40), 24)
            &&& mirrors(m, other, t, other_data, other_len as int)
            &&& mirrors(m, v, t, data, n as int)
        }),
{
    lemma_mirrors_copied(d, v, t, data, n as nat);
    lemma_exec_points_kept(d, v, t, data, n as nat, p, v1, v2);
    lemma_mirrors_kept(d, v, t, data, n as nat, at(p, 8), t, at(arg, 8), scalars);
    lemma_mirrors_kept(d, v, t, data, n as nat, at(p, 40), t, at(arg, 40), 24);
    lemma_mirrors_kept(d, v, t, data, n as nat, other, t, other_data, other_len as int);
}

/// The copy of a submission after the first half: it holds the scalar fields
/// of the argument, points to its arrays, and the arrays hold the bytes of
/// the arrays of the argument.
pub proof fn lemma_execbuffer_mirrored(bytes: Bytes, p: u64, v1: u64, v2: u64, t: Bytes, arg: u64)
    requires
        p + 64 <= 0x1_0000_0000_0000_0000,
        array_len(EXEC_OBJECT2_SIZE, u32_at(t, at(arg, 8))) > 0 ==> clear(
            v1,
            array_len(EXEC_OBJECT2_SIZE, u32_at(t, at(arg, 8))) as int,
            p,
            64,
        ),
        array_len(EXEC_FENCE_SIZE, u32_at(t, at(arg, 28))) > 0 ==> clear(
            v2,
            array_len(EXEC_FENCE_SIZE, u32_at(t, at(arg, 28))) as int,
            p,
            64,
        ),
        array_len(EXEC_OBJECT2_SIZE, u32_at(t, at(arg, 8))) > 0 && array_len(
            EXEC_FENCE_SIZE,
            u32_at(t, at(arg, 28)),
        ) > 0 ==> clear(
            v1,
            array_len(EXEC_OBJECT2_SIZE, u32_at(t, at(arg, 8))) as int,
            v2,
            array_len(EXEC_FENCE_SIZE, u32_at(t, at(arg, 28))) as int,
        ),
        u32_at(t, at(arg, 8)) > 0 ==> array_size(
            EXEC_OBJECT2_SIZE,
            u32_at(t, at(arg, 8)) as usize,
        ) is Ok,
        u32_at(t, at(arg, 28)) > 0 ==> array_size(
            EXEC_FENCE_SIZE,
            u32_at(t, at(arg, 28)) as usize,
        ) is Ok,
    ensures
        ({
            let s1 = array_len(EXEC_OBJECT2_SIZE, u32_at(t, at(arg, 8)));
            let s2 = array_len(EXEC_FENCE_SIZE, u32_at(t, at(arg, 28)));
            let (r, m) = drm_i915_gem_execbuffer2::copy_result(
                with_u64(with_u64(bytes, p, v1), at(p, 32), v2),
                p,
                t,
                arg,
            );
            &&& r is Ok
            &&& mirrors(m, at(p, 8), t, at(arg, 8), 24)
            &&& mirrors(m, at(p, 40), t, at(arg, 40), 24)
            &&& exec_points(m, p, v1, v2)
            &&& mirrors(m, v1, t, u64_at(t, arg), s1 as int)
            &&& mirrors(m, v2, t, u64_at(t, at(arg, 32)), s2 as int)
        }),
{
    let c = u32_at(t, at(arg, 8));
    let k = u32_at(t, at(arg, 28));
    let s1 = array_len(EXEC_OBJECT2_SIZE, c);
    let s2 = array_len(EXEC_FENCE_SIZE, k);
    let tb = u64_at(t, arg);
    let tc = u64_at(t, at(arg, 32));
    let b1 = with_u64(with_u64(bytes, p, v1), at(p, 32), v2);
    lemma_exec_pointers(bytes, p, v1, v2);
    let d2 = copied(copied(b1, at(p, 8), t, at(arg, 8), 20), at(p, 40), t, at(arg, 40), 24);
    lemma_exec_scalars(b1, p, t, arg, v1, v2);
    let d3 = copied(d2, v1, t, tb, s1 as nat);
    lemma_mirrors_none(d2, v2, t, tc);
    lemma_exec_array(d2, p, t, arg, v1, v2, v1, tb, s1, v2, tc, 0, 20);
    let d4 = copied(d3, at(p, 28), t, at(arg, 28), 4);
    lemma_exec_count(d3, p, t, arg, v1, v2);
    lemma_mirrors_kept(d3, at(p, 28), t, at(arg, 28), 4, v1, t, tb, s1 as int);
    let d5 = copied(d4, v2, t, tc, s2 as nat);
    lemma_exec_array(d4, p, t, arg, v1, v2, v2, tc, s2, v1, tb, s1, 24);
    lemma_array_copied(d2, p, t, arg, EXEC_OBJECT2_SIZE, c);
    lemma_array_copied(d4, at(p, 32), t, at(arg, 32), EXEC_FENCE_SIZE, k);
    assert(d3 == if c > 0 { d3 } else { d2 });
    assert(d5 == if k > 0 { d5 } else { d4 });
    assert(drm_i915_gem_execbuffer2::copy_result(b1, p, t, arg) == (Ok::<(), Error>(()), d5)) by {
        reveal(drm_i915_gem_execbuffer2::copy_result);
    }
}

/// The copy back of a submission from a copy that holds what the argument
/// holds leaves the trusted memory as it was.
pub proof fn lemma_execbuffer_back(t: Bytes, arg: u64, m: Bytes, p: u64, v1: u64, v2: u64)
    requires
        mirrors(m, at(p, 8), t, at(arg, 8), 24),
        mirrors(m, at(p, 40), t, at(arg, 40), 24),
        exec_points(m, p, v1, v2),
        mirrors(
            m,
            v1,
            t,
            u64_at(t, arg),
            array_len(EXEC_OBJECT2_SIZE, u32_at(t, at(arg, 8))) as int,
        ),
        mirrors(
            m,
            v2,
            t,
            u64_at(t, at(arg, 32)),
            array_len(EXEC_FENCE_SIZE, u32_at(t, at(arg, 28))) as int,
        ),
        u32_at(t, at(arg, 8)) > 0 ==> array_size(
            EXEC_OBJECT2_SIZE,
            u32_at(t, at(arg, 8)) as usize,
        ) is Ok,
        u32_at(t, at(arg, 28)) > 0 ==> array_size(
            EXEC_FENCE_SIZE,
            u32_at(t, at(arg, 28)) as usize,
        ) is Ok,
    ensures
        drm_i915_gem_execbuffer2::copy_result(t, arg, m, p).0 is Ok,
        same_bytes(drm_i915_gem_execbuffer2::copy_result(t, arg, m, p).1, t),
{
    reveal(drm_i915_gem_execbuffer2::copy_result);
    let s1 = array_len(EXEC_OBJECT2_SIZE, u32_at(t, at(arg, 8)));
    let s2 = array_len(EXEC_FENCE_SIZE, u32_at(t, at(arg, 28)));
    lemma_mirrors_part(m, at(p, 8), t, at(arg, 8), 24, 0, 4);
    assert(at(at(p, 8), 0) == at(p, 8) && at(at(arg, 8), 0) == at(arg, 8));
    lemma_mirrors_u32(m, at(p, 8), t, at(arg, 8));
    lemma_mirrors_part(m, at(p, 8), t, at(arg, 8), 24, 20, 4);
    assert(at(at(p, 8), 20) == at(p, 28) && at(at(arg, 8), 20) == at(arg, 28));
    lemma_mirrors_u32(m, at(p, 28), t, at(arg, 28));
    lemma_mirrors_part(m, at(p, 8), t, at(arg, 8), 24, 0, 20);
    let t1 = copied(t, at(arg, 8), m, at(p, 8), 20);
    lemma_mirrors_back(t, t, at(arg, 8), m, at(p, 8), 20);
    let t2 = copied(t1, at(arg, 40), m, at(p, 40), 24);
    lemma_mirrors_back(t1, t, at(arg, 40), m, at(p, 40), 24);
    lemma_same_u64(t2, t, arg);
    let t3 = if u32_at(t, at(arg, 8)) > 0 {
        copied(t2, u64_at(t, arg), m, v1, s1 as nat)
    } else {
        t2
    };
    if u32_at(t, at(arg, 8)) > 0 {
        lemma_mirrors_back(t2, t, u64_at(t, arg), m, v1, s1 as nat);
    }
    let t4 = copied(t3, at(arg, 28), m, at(p, 28), 4);
    lemma_mirrors_back(t3, t, at(arg, 28), m, at(p, 28), 4);
    lemma_same_u64(t4, t, at(arg, 32));
    if u32_at(t, at(arg, 28)) > 0 {
        lemma_mirrors_back(t4, t, u64_at(t, at(arg, 32)), m, v2, s2 as nat);
    }
}

/// A submission comes back and gives back.
pub proof fn lemma_execbuffer_comes_back(
    before: Seq<Arena>,
    h: ShadowView,
    t: Bytes,
    arg: u64,
    root: Holding,
)
    requires
        holding(before, h.arenas, set![root]),
        root.size == 64,
    ensures
        comes_back(Deep::ExecBuffer2, h, t, arg, root.ptr),
        gives_back(Deep::ExecBuffer2, before, h, t, arg, root),
{
    reveal(Deep::allocated);
    reveal(Deep::copy_result);
    reveal(Deep::freed);
    reveal(drm_i915_gem_execbuffer2::allocated);
    reveal(drm_i915_gem_execbuffer2::freed);
    let p = root.ptr;
    let c = u32_at(t, at(arg, 8));
    let k = u32_at(t, at(arg, 28));
    let s1 = array_len(EXEC_OBJECT2_SIZE, c);
    let s2 = array_len(EXEC_FENCE_SIZE, k);
    assert(set![root].contains(root));
    if mirrored(Deep::ExecBuffer2, h, t, arg, p) is Some {
        let (r1, a1) = allocation(h.arenas, s1);
        let v1 = r1->Ok_0;
        let (r2, a2) = allocation(a1, s2);
        let v2 = r2->Ok_0;
        lemma_two_buffers(before, h.arenas, root, s1, s2);
        lemma_execbuffer_mirrored(h.bytes, p, v1, v2, t, arg);
        let m = drm_i915_gem_execbuffer2::copy_result(
            with_u64(with_u64(h.bytes, p, v1), at(p, 32), v2),
            p,
            t,
            arg,
        ).1;
        lemma_execbuffer_back(t, arg, m, p, v1, v2);
        lemma_mirrors_part(m, at(p, 8), t, at(arg, 8), 24, 0, 4);
        assert(at(at(p, 8), 0) == at(p, 8) && at(at(arg, 8), 0) == at(arg, 8));
        lemma_mirrors_u32(m, at(p, 8), t, at(arg, 8));
        lemma_mirrors_part(m, at(p, 8), t, at(arg, 8), 24, 20, 4);
        assert(at(at(p, 8), 20) == at(p, 28) && at(at(arg, 8), 20) == at(arg, 28));
        lemma_mirrors_u32(m, at(p, 28), t, at(arg, 28));
    }
}

/// A submission whose driver leaves the copy of the argument alone leaves the
/// trusted memory as it was, and gives back all that it allocated.
pub proof fn lemma_execbuffer_loopback(h: ShadowView, t: Bytes, arg: u64)
    requires
        sound(h.arenas),
        exec2_result(Deep::ExecBuffer2, h, t, arg).0 is Ok,
    ensures
        ({
            let (ptr, shadow) = exec2_result(Deep::ExecBuffer2, h, t, arg);
            let (done, back, after) = exec2_finished(
                Deep::ExecBuffer2,
                t,
                arg,
                shadow,
                ptr->Ok_0,
            );
            &&& done is Ok
            &&& same_bytes(back, t)
            &&& sound(after.arenas)
            &&& same_free(after.arenas, h.arenas)
            &&& same_blocks(after.arenas, h.arenas)
        }),
{
    let kind = Deep::ExecBuffer2;
    lemma_root_held(kind, h);
    lemma_execbuffer_comes_back(h.arenas, begun(kind, h), t, arg, grant(h.arenas, kind.size()));
    lemma_exec2_comes_back(kind, h, t, arg);
    lemma_exec2_gives_back(kind, h, t, arg);
}

} // verus!
