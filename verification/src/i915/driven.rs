//! What a driver may write without a leak.
//!
//! The free phase finds the buffers of a call in the copy of the argument
//! and in what lies behind it: their addresses, and the lengths and names
//! from which their sizes follow. A driver that leaves these as it finds
//! them may write whatever else it likes: the call still gives back all that
//! it allocated.
//!
//! For the commands whose free phase reads the copy itself, the items of a
//! query and the parameters of a protected-content operation, the law names
//! the very bytes that the driver has to leave alone. For an address space
//! these are the address of the chain and the copies of the extensions. For
//! the creation of a buffer object or of a context, and for a parameter that
//! configures engines, the law asks that the driver writes nothing but
//! scalar fields of the copy of the argument.

use vstd::prelude::*;
use crate::buddy_alloc::Arena;
use crate::error::Error;
use crate::holdings::{
    Holding, grant, holding, lemma_all_back, lemma_buffer_joins, lemma_buffer_leaves,
    lemma_held_owned, lemma_held_range, lemma_unhold,
};
use crate::i915::chain::CHAIN_LIMIT;
use crate::i915::context::{
    Value, drm_i915_gem_context_create_ext, drm_i915_gem_context_param,
    i915_context_param_engines,
};
use crate::i915::create_ext::prelim_drm_i915_gem_create_ext;
use crate::i915::execbuffer::drm_i915_gem_execbuffer2;
use crate::i915::loopback::{
    begun, gives_back, lemma_execbuffer_comes_back, lemma_getparam_comes_back,
    lemma_plain_param_comes_back, lemma_pread_comes_back, lemma_pwrite_comes_back,
    lemma_root_held, mirrored,
};
use crate::i915::loopback_chains::{
    chain_grants, in_bodies, in_links, in_nodes, lemma_bodies_kept, lemma_bodies_sized,
    lemma_chain_allocated,
    lemma_chain_copied_ok, lemma_chain_freed, lemma_chain_kept, lemma_clear_of_part,
    lemma_linked_reaches, lemma_reaches_kept, nodes_clear_of,
};
use crate::i915::loopback_create::{
    cell_datas, cell_nodes, lemma_cells_allocated as lemma_create_cells_allocated,
    lemma_cells_freed as lemma_create_cells_freed, lemma_cells_mirror_kept,
    lemma_create_cells_copied_ok, lemma_create_mirrored, lemma_data_pointed_kept,
};
use crate::i915::loopback_context::{
    chain_well_laid, in_cells, lemma_cells_allocated, lemma_cells_copied_ok,
    lemma_cells_copied_out, lemma_cells_freed, lemma_cells_kept, lemma_engines_sizer,
    lemma_nested_param_mirrored, lemma_param_allocated, lemma_param_freed, well_nested,
};
use crate::i915::loopback_pxp::lemma_pxp_gives_back;
use crate::i915::loopback_query::{bufs_clear_of, in_bufs, item_at, lemma_query_comes_back};
use crate::i915::loopback_texts::lemma_version_comes_back;
use crate::i915::loopback_vm::{lemma_vm_mirrored, lemma_vm_sizer};
use crate::i915::vm::drm_i915_gem_vm_control;
use crate::i915::query::{drm_i915_query, drm_i915_query_item};
use crate::i915::pread::transfer_freed;
use crate::i915::pxp::{PXP_ACTION_TEE_IO_MESSAGE, prelim_drm_i915_pxp_ops};
use crate::i915::version::drm_version;
use crate::i915::{Deep, Direction, exec2_finished, exec2_result};
use crate::memory::{allocation, released, same_blocks, same_free, sound};
use crate::shadow::{ShadowView, array_size, payload_copied};
use crate::space::{
    Bytes, at, byte_at, clear, copied, lemma_copied_byte, lemma_kept_u64, lemma_mirrors_framed,
    lemma_mirrors_part, lemma_mirrors_u32, lemma_mirrors_u64, lemma_offset, lemma_same_i32, lemma_same_u32, lemma_same_u64,
    lemma_with_u64, offset, u32_at, u64_at, with_u64, within,
};

verus! {

/// Whether the free phase of `kind` reads the copy of the argument, the
/// items of a query and the parameters of a protected-content operation, and
/// nothing else.
pub open spec fn flat(kind: Deep) -> bool {
    kind == Deep::GetParam || kind == Deep::Pread || kind == Deep::Pwrite || kind == Deep::Version
        || kind == Deep::ExecBuffer2 || kind == Deep::ContextParam || kind == Deep::Query || kind
        == Deep::PxpOps
}

/// Whether the argument at `arg` has nothing behind its buffers that the
/// free phase of `kind` would follow: a parameter of a context does not
/// configure engines.
pub open spec fn plain(kind: Deep, t: Bytes, arg: u64) -> bool {
    kind == Deep::ContextParam ==> !drm_i915_gem_context_param::nests(t, arg)
}

/// Whether the free phase of `kind` reads the byte `off` bytes into the copy
/// of the argument: a byte of the address of a buffer, or of a length from
/// which the size of a buffer follows.
pub open spec fn read_back(kind: Deep, off: int) -> bool {
    match kind {
        Deep::GetParam => 8 <= off < 16,
        Deep::Pread => 16 <= off < 32,
        Deep::Pwrite => 16 <= off < 32,
        Deep::Version => 16 <= off < 64,
        Deep::ExecBuffer2 => 0 <= off < 12 || 28 <= off < 40,
        Deep::ContextParam => 4 <= off < 24,
        Deep::Query => 0 <= off < 4 || 8 <= off < 16,
        Deep::PxpOps => 0 <= off < 4 || 8 <= off < 16,
        _ => false,
    }
}

/// Whether `driven` holds what `m` holds in the length and in the address
/// of the buffer of each of the `n` items of the array at `vi`.
pub open spec fn items_kept(m: Bytes, driven: Bytes, vi: u64, n: nat) -> bool {
    forall|j: nat, a: u64|
        #![trigger within(at(item_at(vi, j), 8), 4, a)]
        #![trigger within(at(item_at(vi, j), 16), 8, a)]
        j < n && (within(at(item_at(vi, j), 8), 4, a) || within(at(item_at(vi, j), 16), 8, a))
            ==> byte_at(driven, a) == byte_at(m, a)
}

/// Whether `driven` holds what `m` holds in every byte that the free phase
/// reads: those of the copy at `p`, and for a query those of its items.
pub open spec fn skeleton_kept(kind: Deep, m: Bytes, driven: Bytes, p: u64) -> bool {
    &&& forall|off: int|
        0 <= off < kind.size() && read_back(kind, off) ==> byte_at(driven, #[trigger] at(p, off))
            == byte_at(m, at(p, off))
    &&& kind == Deep::Query ==> items_kept(m, driven, u64_at(m, at(p, 8)), u32_at(m, p) as nat)
    &&& kind == Deep::PxpOps && u32_at(m, p) == PXP_ACTION_TEE_IO_MESSAGE ==> forall|a: u64|
        within(u64_at(m, at(p, 8)), 24, a) ==> byte_at(driven, a) == byte_at(m, a)
}

/// What the free phase does for the items of a query from `i` on where the
/// driver kept their lengths and the addresses of their buffers: what it
/// does where the driver left them alone.
pub proof fn lemma_items_freed_alike(arenas: Seq<Arena>, m: Bytes, driven: Bytes, p: u64, i: nat, n: nat)
    requires
        i <= n <= u32::MAX,
        u64_at(driven, at(p, 8)) == u64_at(m, at(p, 8)),
        items_kept(m, driven, u64_at(m, at(p, 8)), n),
    ensures
        drm_i915_query::items_freed(ShadowView { arenas, bytes: driven }, p, i, n).0
            == drm_i915_query::items_freed(ShadowView { arenas, bytes: m }, p, i, n).0,
        drm_i915_query::items_freed(ShadowView { arenas, bytes: driven }, p, i, n).1.arenas
            == drm_i915_query::items_freed(ShadowView { arenas, bytes: m }, p, i, n).1.arenas,
        drm_i915_query::items_freed(ShadowView { arenas, bytes: driven }, p, i, n).1.bytes
            == driven,
        drm_i915_query::items_freed(ShadowView { arenas, bytes: m }, p, i, n).1.bytes == m,
    decreases n - i,
{
    reveal(drm_i915_query_item::freed);
    if i < n {
        match array_size(24, i as usize) {
            Err(_) => {},
            Ok(off) => {
                let vi = u64_at(m, at(p, 8));
                assert(at(vi, off as int) == item_at(vi, i));
                let item = item_at(vi, i);
                assert forall|a: u64| within(at(item, 8), 4, a) implies byte_at(driven, a)
                    == byte_at(m, a) by {
                    assert(within(at(item_at(vi, i), 8), 4, a));
                }
                assert forall|a: u64| within(at(item, 16), 8, a) implies byte_at(driven, a)
                    == byte_at(m, a) by {
                    assert(within(at(item_at(vi, i), 16), 8, a));
                }
                lemma_same_i32(driven, m, at(item, 8));
                lemma_same_u64(driven, m, at(item, 16));
                let next = drm_i915_query_item::freed(ShadowView { arenas, bytes: m }, item).arenas;
                lemma_items_freed_alike(next, m, driven, p, i + 1, n);
            },
        }
    }
}

/// The copy of the items of a query ends well where their array has a size.
pub proof fn lemma_items_copied_ok(
    d: Bytes,
    dst: u64,
    s: Bytes,
    src: u64,
    direction: Direction,
    i: nat,
    n: nat,
)
    requires
        24 * n <= usize::MAX,
        n <= u32::MAX,
    ensures
        drm_i915_query::items_copied(d, dst, s, src, direction, i, n).0 is Ok,
    decreases n - i,
{
    if i < n {
        let off = (24 * i) as usize;
        assert(array_size(24, i as usize) == Ok::<usize, Error>(off));
        lemma_items_copied_ok(
            drm_i915_query::item_copied(
                d,
                at(u64_at(d, at(dst, 8)), off as int),
                s,
                at(u64_at(s, at(src, 8)), off as int),
                direction,
            ),
            dst,
            s,
            src,
            direction,
            i + 1,
            n,
        );
    }
}

/// A field of the copy that the free phase reads is as it was.
pub proof fn lemma_field_kept(kind: Deep, m: Bytes, driven: Bytes, p: u64, k: int, n: int)
    requires
        skeleton_kept(kind, m, driven, p),
        0 <= k,
        0 <= n,
        k + n <= kind.size(),
        forall|i: int| k <= i < k + n ==> read_back(kind, i),
    ensures
        forall|a: u64| within(at(p, k), n, a) ==> byte_at(driven, a) == byte_at(m, a),
{
    assert forall|a: u64| within(at(p, k), n, a) implies byte_at(driven, a) == byte_at(m, a) by {
        let i = offset(at(p, k), a);
        lemma_offset(at(p, k), a, i);
        assert(at(p, k + i) == a);
    }
}

/// What the free phase of a flat command does where the driver kept what it
/// reads: what it does where the driver left the whole copy alone.
pub proof fn lemma_frees_alike(kind: Deep, arenas: Seq<Arena>, m: Bytes, driven: Bytes, p: u64)
    requires
        flat(kind),
        skeleton_kept(kind, m, driven, p),
        plain(kind, m, p),
    ensures
        kind.freed(ShadowView { arenas, bytes: driven }, p).0 == kind.freed(
            ShadowView { arenas, bytes: m },
            p,
        ).0,
        kind.freed(ShadowView { arenas, bytes: driven }, p).1.arenas == kind.freed(
            ShadowView { arenas, bytes: m },
            p,
        ).1.arenas,
{
    reveal(Deep::freed);
    match kind {
        Deep::GetParam => {
            lemma_field_kept(kind, m, driven, p, 8, 8);
            lemma_same_u64(driven, m, at(p, 8));
        },
        Deep::Pread | Deep::Pwrite => {
            reveal(transfer_freed);
            lemma_field_kept(kind, m, driven, p, 16, 8);
            lemma_field_kept(kind, m, driven, p, 24, 8);
            lemma_same_u64(driven, m, at(p, 16));
            lemma_same_u64(driven, m, at(p, 24));
        },
        Deep::Version => {
            reveal(drm_version::freed);
            lemma_field_kept(kind, m, driven, p, 16, 8);
            lemma_field_kept(kind, m, driven, p, 24, 8);
            lemma_field_kept(kind, m, driven, p, 32, 8);
            lemma_field_kept(kind, m, driven, p, 40, 8);
            lemma_field_kept(kind, m, driven, p, 48, 8);
            lemma_field_kept(kind, m, driven, p, 56, 8);
            lemma_same_u64(driven, m, at(p, 16));
            lemma_same_u64(driven, m, at(p, 24));
            lemma_same_u64(driven, m, at(p, 32));
            lemma_same_u64(driven, m, at(p, 40));
            lemma_same_u64(driven, m, at(p, 48));
            lemma_same_u64(driven, m, at(p, 56));
        },
        Deep::ExecBuffer2 => {
            reveal(drm_i915_gem_execbuffer2::freed);
            lemma_field_kept(kind, m, driven, p, 0, 8);
            lemma_field_kept(kind, m, driven, p, 8, 4);
            lemma_field_kept(kind, m, driven, p, 28, 4);
            lemma_field_kept(kind, m, driven, p, 32, 8);
            assert(at(p, 0) == p);
            lemma_same_u64(driven, m, p);
            lemma_same_u32(driven, m, at(p, 8));
            lemma_same_u32(driven, m, at(p, 28));
            lemma_same_u64(driven, m, at(p, 32));
        },
        Deep::PxpOps => {
            reveal(prelim_drm_i915_pxp_ops::freed);
            lemma_field_kept(kind, m, driven, p, 0, 4);
            lemma_field_kept(kind, m, driven, p, 8, 8);
            assert(at(p, 0) == p);
            lemma_same_u32(driven, m, p);
            lemma_same_u64(driven, m, at(p, 8));
            if u32_at(m, p) == PXP_ACTION_TEE_IO_MESSAGE {
                let param = u64_at(m, at(p, 8));
                assert forall|a: u64|
                    within(param, 8, a) || within(at(param, 8), 4, a) || within(
                        at(param, 12),
                        8,
                        a,
                    ) || within(at(param, 20), 4, a) implies byte_at(driven, a) == byte_at(m, a) by {
                    assert(within(param, 24, a));
                }
                lemma_same_u64(driven, m, param);
                lemma_same_u32(driven, m, at(param, 8));
                lemma_same_u64(driven, m, at(param, 12));
                lemma_same_u32(driven, m, at(param, 20));
            }
        },
        Deep::Query => {
            reveal(drm_i915_query::freed);
            lemma_field_kept(kind, m, driven, p, 0, 4);
            lemma_field_kept(kind, m, driven, p, 8, 8);
            assert(at(p, 0) == p);
            lemma_same_u32(driven, m, p);
            lemma_same_u64(driven, m, at(p, 8));
            lemma_items_freed_alike(arenas, m, driven, p, 0, u32_at(m, p) as nat);
        },
        Deep::ContextParam => {
            reveal(drm_i915_gem_context_param::freed);
            reveal(drm_i915_gem_context_param::freed_with);
            lemma_field_kept(kind, m, driven, p, 4, 4);
            lemma_field_kept(kind, m, driven, p, 8, 8);
            lemma_field_kept(kind, m, driven, p, 16, 8);
            lemma_same_u32(driven, m, at(p, 4));
            lemma_same_u64(driven, m, at(p, 8));
            lemma_same_u64(driven, m, at(p, 16));
        },
        _ => {},
    }
}

/// The copy back of a flat command ends well where the driver kept what the
/// free phase reads, if it ends well where the driver left the whole copy
/// alone.
pub proof fn lemma_copies_back(kind: Deep, t: Bytes, arg: u64, m: Bytes, driven: Bytes, p: u64)
    requires
        flat(kind),
        skeleton_kept(kind, m, driven, p),
        plain(kind, m, p),
        kind.copy_result(t, arg, m, p, Direction::u2t).0 is Ok,
        kind == Deep::Query ==> 24 * u32_at(m, p) <= usize::MAX,
    ensures
        kind.copy_result(t, arg, driven, p, Direction::u2t).0 is Ok,
{
    reveal(Deep::copy_result);
    if kind == Deep::ExecBuffer2 {
        reveal(drm_i915_gem_execbuffer2::copy_result);
        lemma_field_kept(kind, m, driven, p, 8, 4);
        lemma_field_kept(kind, m, driven, p, 28, 4);
        lemma_same_u32(driven, m, at(p, 8));
        lemma_same_u32(driven, m, at(p, 28));
    }
    if kind == Deep::Query {
        reveal(drm_i915_query::copy_result);
        lemma_field_kept(kind, m, driven, p, 0, 4);
        assert(at(p, 0) == p);
        lemma_same_u32(driven, m, p);
        lemma_items_copied_ok(
            copied(t, arg, driven, p, 8),
            arg,
            driven,
            p,
            Direction::u2t,
            0,
            u32_at(m, p) as nat,
        );
    }
    if kind == Deep::ContextParam {
        reveal(drm_i915_gem_context_param::copy_result);
        reveal(drm_i915_gem_context_param::copied_with);
        lemma_field_kept(kind, m, driven, p, 4, 4);
        lemma_field_kept(kind, m, driven, p, 8, 8);
        lemma_same_u32(driven, m, at(p, 4));
        lemma_same_u64(driven, m, at(p, 8));
    }
}

/// A flat command gives back what it allocated where the driver leaves the
/// copy alone, and its copy back ends well.
pub proof fn lemma_flat_gives_back(
    kind: Deep,
    before: Seq<Arena>,
    h: ShadowView,
    t: Bytes,
    arg: u64,
    root: Holding,
)
    requires
        flat(kind),
        plain(kind, t, arg),
        holding(before, h.arenas, set![root]),
        root.size == kind.size(),
    ensures
        gives_back(kind, before, h, t, arg, root),
        mirrored(kind, h, t, arg, root.ptr) matches Some(m) ==> plain(kind, m.bytes, root.ptr)
            && kind.copy_result(t, arg, m.bytes, root.ptr, Direction::u2t).0 is Ok && (kind
            == Deep::Query ==> 24 * u32_at(m.bytes, root.ptr) <= usize::MAX),
{
    match kind {
        Deep::GetParam => lemma_getparam_comes_back(before, h, t, arg, root),
        Deep::Pread => lemma_pread_comes_back(before, h, t, arg, root),
        Deep::Pwrite => lemma_pwrite_comes_back(before, h, t, arg, root),
        Deep::Version => lemma_version_comes_back(before, h, t, arg, root),
        Deep::ExecBuffer2 => lemma_execbuffer_comes_back(before, h, t, arg, root),
        Deep::ContextParam => lemma_plain_param_comes_back(before, h, t, arg, root),
        Deep::PxpOps => {
            lemma_pxp_gives_back(before, h, t, arg, root);
            reveal(Deep::copy_result);
        },
        Deep::Query => {
            lemma_query_comes_back(before, h, t, arg, root);
            if mirrored(kind, h, t, arg, root.ptr) is Some {
                reveal(Deep::freed);
                reveal(drm_i915_query::freed);
            }
        },
        _ => {},
    }
}

/// A call whose copy back ends well and whose free phase gives back all but
/// the copy of the argument, on what the driver left, ends well and leaves
/// the free bytes of the arenas as they were.
pub proof fn lemma_second_half(kind: Deep, h: ShadowView, t: Bytes, arg: u64, driven: Bytes)
    requires
        sound(h.arenas),
        exec2_result(kind, h, t, arg).0 is Ok,
        ({
            let (ptr, shadow) = exec2_result(kind, h, t, arg);
            let left = ShadowView { arenas: shadow.arenas, bytes: driven };
            &&& kind.copy_result(t, arg, driven, ptr->Ok_0, Direction::u2t).0 is Ok
            &&& kind.freed(left, ptr->Ok_0).0 is Ok
            &&& holding(
                h.arenas,
                kind.freed(left, ptr->Ok_0).1.arenas,
                set![grant(h.arenas, kind.size())],
            )
        }),
    ensures
        ({
            let (ptr, shadow) = exec2_result(kind, h, t, arg);
            let (done, back, after) = exec2_finished(
                kind,
                t,
                arg,
                ShadowView { arenas: shadow.arenas, bytes: driven },
                ptr->Ok_0,
            );
            &&& done is Ok
            &&& sound(after.arenas)
            &&& same_free(after.arenas, h.arenas)
            &&& same_blocks(after.arenas, h.arenas)
        }),
{
    let root = grant(h.arenas, kind.size());
    let (ptr, shadow) = exec2_result(kind, h, t, arg);
    let left = ShadowView { arenas: shadow.arenas, bytes: driven };
    let freed = kind.freed(left, root.ptr).1;
    let after = exec2_finished(kind, t, arg, left, root.ptr).2;
    lemma_unhold(h.arenas, freed.arenas, set![root], root);
    assert(set![root].remove(root) =~= Set::<Holding>::empty());
    lemma_all_back(h.arenas, after.arenas);
}

/// A flat command gives back all that it allocated, whatever the driver
/// writes, as long as it leaves the addresses and the lengths of the buffers
/// in the copy of the argument as it finds them: the second half ends well,
/// and the free bytes of the arenas are those before the call.
pub proof fn lemma_no_leak(kind: Deep, h: ShadowView, t: Bytes, arg: u64, driven: Bytes)
    requires
        flat(kind),
        plain(kind, t, arg),
        sound(h.arenas),
        exec2_result(kind, h, t, arg).0 is Ok,
        skeleton_kept(
            kind,
            exec2_result(kind, h, t, arg).1.bytes,
            driven,
            exec2_result(kind, h, t, arg).0->Ok_0,
        ),
    ensures
        ({
            let (ptr, shadow) = exec2_result(kind, h, t, arg);
            let (done, back, after) = exec2_finished(
                kind,
                t,
                arg,
                ShadowView { arenas: shadow.arenas, bytes: driven },
                ptr->Ok_0,
            );
            &&& done is Ok
            &&& sound(after.arenas)
            &&& same_free(after.arenas, h.arenas)
            &&& same_blocks(after.arenas, h.arenas)
        }),
{
    let root = grant(h.arenas, kind.size());
    let (ptr, shadow) = exec2_result(kind, h, t, arg);
    lemma_root_held(kind, h);
    lemma_flat_gives_back(kind, h.arenas, begun(kind, h), t, arg, root);
    let m = mirrored(kind, begun(kind, h), t, arg, root.ptr)->0;
    assert(shadow == m);
    lemma_frees_alike(kind, m.arenas, m.bytes, driven, root.ptr);
    lemma_copies_back(kind, t, arg, m.bytes, driven, root.ptr);
    lemma_second_half(kind, h, t, arg, driven);
}

/// The blocks of the copies of the extensions of an address space.
pub open spec fn vm_nodes(h: ShadowView, t: Bytes, arg: u64) -> Seq<Holding> {
    chain_grants(
        drm_i915_gem_vm_control::sizer(),
        begun(Deep::VmControl, h).arenas,
        t,
        u64_at(t, arg),
        CHAIN_LIMIT as nat,
    )
}

/// The creation or destruction of an address space gives back all that it
/// allocated, whatever the driver writes, as long as it leaves the address of
/// the chain in the copy of the argument and the copies of the extensions as
/// it finds them.
pub proof fn lemma_vm_no_leak(h: ShadowView, t: Bytes, arg: u64, driven: Bytes)
    requires
        sound(h.arenas),
        exec2_result(Deep::VmControl, h, t, arg).0 is Ok,
        ({
            let (ptr, shadow) = exec2_result(Deep::VmControl, h, t, arg);
            forall|a: u64|
                within(ptr->Ok_0, 8, a) || in_nodes(vm_nodes(h, t, arg), a) ==> byte_at(driven, a)
                    == byte_at(shadow.bytes, a)
        }),
    ensures
        ({
            let (ptr, shadow) = exec2_result(Deep::VmControl, h, t, arg);
            let (done, back, after) = exec2_finished(
                Deep::VmControl,
                t,
                arg,
                ShadowView { arenas: shadow.arenas, bytes: driven },
                ptr->Ok_0,
            );
            &&& done is Ok
            &&& sound(after.arenas)
            &&& same_free(after.arenas, h.arenas)
            &&& same_blocks(after.arenas, h.arenas)
        }),
{
    reveal(Deep::allocated);
    reveal(Deep::copy_result);
    reveal(Deep::freed);
    reveal(drm_i915_gem_vm_control::allocated);
    reveal(drm_i915_gem_vm_control::copy_result);
    reveal(drm_i915_gem_vm_control::freed);
    let kind = Deep::VmControl;
    let size_of = drm_i915_gem_vm_control::sizer();
    let fuel = CHAIN_LIMIT as nat;
    let root = grant(h.arenas, kind.size());
    let p = root.ptr;
    let x0 = u64_at(t, arg);
    let hb = begun(kind, h);
    let nodes = vm_nodes(h, t, arg);
    lemma_root_held(kind, h);
    lemma_vm_sizer();
    assert(set![root].contains(root));
    lemma_held_range(h.arenas, hb.arenas, set![root], root);
    let h0 = ShadowView { arenas: hb.arenas, bytes: with_u64(hb.bytes, p, 0) };
    lemma_with_u64(hb.bytes, p, 0);
    lemma_chain_allocated(size_of, h.arenas, set![root], h0, p, t, x0, fuel, root);
    let h1 = drm_i915_gem_vm_control::allocated(hb, p, t, arg).1;
    lemma_linked_reaches(h1.bytes, p, nodes);
    lemma_vm_mirrored(h1.bytes, p, nodes, t, arg);
    let m = drm_i915_gem_vm_control::copy_result(h1.bytes, p, t, arg).1;
    lemma_bodies_sized(size_of, m, nodes, t, x0, fuel);
    lemma_same_u64(driven, m, p);
    lemma_chain_kept(size_of, m, driven, u64_at(m, p), nodes);
    lemma_chain_copied_ok(
        size_of,
        copied(t, at(arg, 8), driven, at(p, 8), 8),
        arg,
        driven,
        u64_at(driven, p),
        nodes,
        fuel,
    );
    lemma_chain_freed(
        size_of,
        h.arenas,
        set![root],
        ShadowView { arenas: h1.arenas, bytes: driven },
        u64_at(driven, p),
        nodes,
        fuel,
    );
    lemma_second_half(kind, h, t, arg, driven);
}

/// The creation of a context whose extensions are laid out well gives back
/// all that it allocated, as long as the driver writes nothing but the scalar
/// fields of the copy of the argument.
pub proof fn lemma_context_create_no_leak(h: ShadowView, t: Bytes, arg: u64, driven: Bytes)
    requires
        sound(h.arenas),
        chain_well_laid(t, u64_at(t, at(arg, 8)), CHAIN_LIMIT as nat),
        exec2_result(Deep::ContextCreateExt, h, t, arg).0 is Ok,
        ({
            let (ptr, shadow) = exec2_result(Deep::ContextCreateExt, h, t, arg);
            forall|a: u64|
                !within(ptr->Ok_0, 8, a) ==> byte_at(driven, a) == byte_at(shadow.bytes, a)
        }),
    ensures
        ({
            let (ptr, shadow) = exec2_result(Deep::ContextCreateExt, h, t, arg);
            let (done, back, after) = exec2_finished(
                Deep::ContextCreateExt,
                t,
                arg,
                ShadowView { arenas: shadow.arenas, bytes: driven },
                ptr->Ok_0,
            );
            &&& done is Ok
            &&& sound(after.arenas)
            &&& same_free(after.arenas, h.arenas)
            &&& same_blocks(after.arenas, h.arenas)
        }),
{
    reveal(Deep::allocated);
    reveal(Deep::copy_result);
    reveal(Deep::freed);
    reveal(drm_i915_gem_context_create_ext::allocated);
    reveal(drm_i915_gem_context_create_ext::copy_result);
    reveal(drm_i915_gem_context_create_ext::freed);
    let kind = Deep::ContextCreateExt;
    let fuel = CHAIN_LIMIT as nat;
    let root = grant(h.arenas, kind.size());
    let p = root.ptr;
    let slot = at(p, 8);
    let x0 = u64_at(t, at(arg, 8));
    let hb = begun(kind, h);
    lemma_root_held(kind, h);
    assert(set![root].contains(root));
    lemma_held_range(h.arenas, hb.arenas, set![root], root);
    let h0 = ShadowView { arenas: hb.arenas, bytes: with_u64(hb.bytes, slot, 0) };
    lemma_with_u64(hb.bytes, slot, 0);
    let cells = lemma_cells_allocated(h.arenas, set![root], h0, slot, t, x0, fuel, root);
    let h1 = drm_i915_gem_context_create_ext::allocated(hb, p, t, arg).1;
    let d0 = copied(h1.bytes, p, t, arg, 8);
    lemma_kept_u64(h1.bytes, p, t, arg, 8, slot);
    assert forall|a: u64| within(p, 16, a) implies !in_cells(cells, a) by {
        assert(within(root.ptr, root.size as int, a));
    }
    assert forall|a: u64| in_cells(cells, a) implies byte_at(d0, a) == byte_at(h1.bytes, a) by {
        lemma_copied_byte(h1.bytes, p, t, arg, 8, a);
    }
    lemma_cells_kept(h1.bytes, d0, u64_at(h1.bytes, slot), cells, t, x0, fuel, false);
    lemma_cells_copied_out(d0, slot, cells, t, x0, fuel);
    let m = drm_i915_gem_context_create_ext::chain_copied(d0, slot, t, x0, fuel).1;
    let first = u64_at(m, slot);
    lemma_cells_kept(m, driven, first, cells, t, x0, fuel, true);
    lemma_same_u64(driven, m, slot);
    lemma_cells_copied_ok(
        copied(t, arg, driven, p, 8),
        at(arg, 8),
        driven,
        first,
        cells,
        t,
        x0,
        fuel,
    );
    lemma_cells_freed(
        h.arenas,
        set![root],
        ShadowView { arenas: h1.arenas, bytes: driven },
        first,
        cells,
        t,
        x0,
        fuel,
    );
    lemma_second_half(kind, h, t, arg, driven);
}

/// The creation of a buffer object gives back all that it allocated, as long
/// as the driver writes nothing but the scalar fields of the copy of the
/// argument.
pub proof fn lemma_create_no_leak(h: ShadowView, t: Bytes, arg: u64, driven: Bytes)
    requires
        sound(h.arenas),
        exec2_result(Deep::GemCreateExt, h, t, arg).0 is Ok,
        ({
            let (ptr, shadow) = exec2_result(Deep::GemCreateExt, h, t, arg);
            forall|a: u64|
                !within(ptr->Ok_0, 16, a) ==> byte_at(driven, a) == byte_at(shadow.bytes, a)
        }),
    ensures
        ({
            let (ptr, shadow) = exec2_result(Deep::GemCreateExt, h, t, arg);
            let (done, back, after) = exec2_finished(
                Deep::GemCreateExt,
                t,
                arg,
                ShadowView { arenas: shadow.arenas, bytes: driven },
                ptr->Ok_0,
            );
            &&& done is Ok
            &&& sound(after.arenas)
            &&& same_free(after.arenas, h.arenas)
            &&& same_blocks(after.arenas, h.arenas)
        }),
{
    reveal(Deep::allocated);
    reveal(Deep::copy_result);
    reveal(Deep::freed);
    reveal(prelim_drm_i915_gem_create_ext::allocated);
    reveal(prelim_drm_i915_gem_create_ext::freed);
    let kind = Deep::GemCreateExt;
    let fuel = CHAIN_LIMIT as nat;
    let root = grant(h.arenas, kind.size());
    let p = root.ptr;
    let slot = at(p, 16);
    let x0 = u64_at(t, at(arg, 16));
    let hb = begun(kind, h);
    lemma_root_held(kind, h);
    assert(set![root].contains(root));
    lemma_held_range(h.arenas, hb.arenas, set![root], root);
    let h0 = ShadowView { arenas: hb.arenas, bytes: with_u64(hb.bytes, slot, 0) };
    lemma_with_u64(hb.bytes, slot, 0);
    lemma_create_cells_allocated(h.arenas, set![root], h0, slot, t, x0, fuel, root);
    let nodes = cell_nodes(hb.arenas, t, x0, fuel);
    let datas = cell_datas(hb.arenas, t, x0, fuel);
    let h1 = prelim_drm_i915_gem_create_ext::allocated(hb, p, t, arg).1;
    assert(nodes_clear_of(nodes, p, 24) && bufs_clear_of(datas, p, 24));
    lemma_clear_of_part(nodes, p, 24, slot, 8);
    assert(bufs_clear_of(datas, slot, 8)) by {
        assert forall|k: int| 0 <= k < datas.len() && (#[trigger] datas[k]).size > 0 implies clear(
            datas[k].ptr,
            datas[k].size as int,
            slot,
            8,
        ) by {
            assert(clear(datas[k].ptr, datas[k].size as int, p, 24));
        }
    }
    lemma_create_mirrored(h1.bytes, p, nodes, datas, t, arg);
    let m = prelim_drm_i915_gem_create_ext::copy_result(h1.bytes, p, t, arg).1;
    let first = u64_at(m, slot);
    assert forall|a: u64| in_nodes(nodes, a) || in_bufs(datas, a) implies byte_at(driven, a)
        == byte_at(m, a) by {
        if in_nodes(nodes, a) {
            let k = choose|k: int|
                0 <= k < nodes.len() && within((#[trigger] nodes[k]).ptr, nodes[k].size as int, a);
            assert(clear(nodes[k].ptr, nodes[k].size as int, p, 24));
        } else {
            let k = choose|k: int|
                0 <= k < datas.len() && (#[trigger] datas[k]).size > 0 && within(
                    datas[k].ptr,
                    datas[k].size as int,
                    a,
                );
            assert(clear(datas[k].ptr, datas[k].size as int, p, 24));
        }
    }
    assert forall|a: u64| in_links(nodes, a) implies byte_at(driven, a) == byte_at(m, a) by {
        let k = choose|k: int| 0 <= k < nodes.len() && within((#[trigger] nodes[k]).ptr, 8, a);
        assert(nodes[k].size >= 8);
        assert(within(nodes[k].ptr, nodes[k].size as int, a));
        assert(in_nodes(nodes, a));
    }
    lemma_reaches_kept(m, driven, first, nodes);
    lemma_data_pointed_kept(m, driven, nodes, datas, t, x0, fuel);
    lemma_cells_mirror_kept(m, driven, nodes, datas, t, x0, fuel);
    lemma_same_u64(driven, m, slot);
    lemma_create_cells_copied_ok(
        copied(t, arg, driven, p, 16),
        at(arg, 16),
        driven,
        first,
        nodes,
        datas,
        t,
        x0,
        fuel,
    );
    assert(prelim_drm_i915_gem_create_ext::copy_result(t, arg, driven, p)
        == prelim_drm_i915_gem_create_ext::chain_copied(
        copied(t, arg, driven, p, 16),
        at(arg, 16),
        driven,
        u64_at(driven, slot),
        fuel,
    )) by {
        reveal(prelim_drm_i915_gem_create_ext::copy_result);
    }
    lemma_create_cells_freed(
        h.arenas,
        set![root],
        ShadowView { arenas: h1.arenas, bytes: driven },
        first,
        nodes,
        datas,
        t,
        x0,
        fuel,
    );
    lemma_second_half(kind, h, t, arg, driven);
}

/// A call that sets or reads the engines of a context through a nested
/// parameter that is laid out well gives back all that it allocated, as long
/// as the driver writes nothing but the first scalar field of the copy of
/// the argument.
pub proof fn lemma_nested_param_no_leak(h: ShadowView, t: Bytes, arg: u64, driven: Bytes)
    requires
        sound(h.arenas),
        drm_i915_gem_context_param::nests(t, arg),
        well_nested(t, arg),
        exec2_result(Deep::ContextParam, h, t, arg).0 is Ok,
        ({
            let (ptr, shadow) = exec2_result(Deep::ContextParam, h, t, arg);
            forall|a: u64|
                !within(ptr->Ok_0, 4, a) ==> byte_at(driven, a) == byte_at(shadow.bytes, a)
        }),
    ensures
        ({
            let (ptr, shadow) = exec2_result(Deep::ContextParam, h, t, arg);
            let (done, back, after) = exec2_finished(
                Deep::ContextParam,
                t,
                arg,
                ShadowView { arenas: shadow.arenas, bytes: driven },
                ptr->Ok_0,
            );
            &&& done is Ok
            &&& sound(after.arenas)
            &&& same_free(after.arenas, h.arenas)
            &&& same_blocks(after.arenas, h.arenas)
        }),
{
    reveal(Deep::allocated);
    reveal(Deep::copy_result);
    reveal(Deep::freed);
    reveal(drm_i915_gem_context_param::allocated);
    reveal(drm_i915_gem_context_param::copy_result);
    reveal(drm_i915_gem_context_param::freed);
    let kind = Deep::ContextParam;
    let size_of = i915_context_param_engines::sizer();
    let fuel = CHAIN_LIMIT as nat;
    let before = h.arenas;
    let root = grant(h.arenas, kind.size());
    let hb = begun(kind, h);
    let p = root.ptr;
    let size = u32_at(t, at(arg, 4)) as usize;
    let csrc = u64_at(t, at(arg, 16));
    let v = u64_at(t, at(csrc, 16));
    lemma_root_held(kind, h);
    assert(set![root].contains(root));
    lemma_held_range(before, hb.arenas, set![root], root);
    let outer = grant(hb.arenas, size);
    let a1 = allocation(hb.arenas, size).1;
    let b1 = with_u64(hb.bytes, at(p, 16), outer.ptr);
    assert(drm_i915_gem_context_param::allocated_with(hb, p, t, arg, Value::Opaque) == (
        Ok::<(), Error>(()),
        ShadowView { arenas: a1, bytes: b1 },
    ) && allocation(hb.arenas, size).0 is Ok) by {
        reveal(drm_i915_gem_context_param::allocated_with);
    }
    lemma_buffer_joins(before, hb.arenas, set![root], size);
    let blocks1 = set![root].insert(outer);
    assert(blocks1.contains(outer) && blocks1.contains(root));
    lemma_held_range(before, a1, blocks1, outer);
    lemma_with_u64(hb.bytes, at(p, 16), outer.ptr);
    let h1 = ShadowView { arenas: a1, bytes: b1 };
    lemma_param_allocated(before, blocks1, h1, t, csrc, outer);
    let inner = grant(a1, u32_at(t, at(csrc, 4)) as usize);
    let engines = chain_grants(size_of, allocation(a1, inner.size).1, t, u64_at(t, v), fuel);
    let h2 = drm_i915_gem_context_param::allocated(hb, p, t, arg).1;
    assert(clear(inner.ptr, inner.size as int, p, 24));
    assert(clear(outer.ptr, size as int, p, 24));
    assert(nodes_clear_of(engines, p, 24));
    assert(nodes_clear_of(engines, outer.ptr, size as int));
    assert forall|a: u64| in_nodes(engines, a) implies !within(p, 24, a) by {
        let k = choose|k: int|
            0 <= k < engines.len() && within((#[trigger] engines[k]).ptr, engines[k].size as int, a);
        assert(clear(engines[k].ptr, engines[k].size as int, p, 24));
    }
    assert forall|a: u64| within(at(p, 16), 8, a) implies byte_at(h2.bytes, a) == byte_at(b1, a) by {
        if in_nodes(engines, a) {
            assert(!within(p, 24, a));
        }
    }
    lemma_same_u64(h2.bytes, b1, at(p, 16));
    lemma_nested_param_mirrored(h2.bytes, p, outer, inner, engines, t, arg);
    let m = drm_i915_gem_context_param::copy_result(h2.bytes, p, t, arg, Direction::t2u).1;
    lemma_mirrors_part(m, p, t, arg, 16, 4, 4);
    lemma_mirrors_u32(m, at(p, 4), t, at(arg, 4));
    lemma_mirrors_part(m, p, t, arg, 16, 8, 8);
    lemma_mirrors_u64(m, at(p, 8), t, at(arg, 8));
    lemma_mirrors_part(m, outer.ptr, t, csrc, 16, 4, 4);
    lemma_mirrors_u32(m, at(outer.ptr, 4), t, at(csrc, 4));
    // What the driver left.
    lemma_same_u32(driven, m, at(p, 4));
    lemma_same_u64(driven, m, at(p, 8));
    lemma_same_u64(driven, m, at(p, 16));
    lemma_same_u32(driven, m, at(outer.ptr, 4));
    lemma_same_u64(driven, m, at(outer.ptr, 16));
    lemma_same_u64(driven, m, inner.ptr);
    lemma_mirrors_framed(m, driven, outer.ptr, t, csrc, 16);
    lemma_engines_sizer();
    lemma_bodies_sized(size_of, m, engines, t, u64_at(t, v), fuel);
    lemma_chain_kept(size_of, m, driven, u64_at(m, inner.ptr), engines);
    assert forall|a: u64| in_bodies(engines, a) implies byte_at(driven, a) == byte_at(m, a) by {
        let k = choose|k: int|
            0 <= k < engines.len() && within((#[trigger] engines[k]).ptr, engines[k].size as int, a)
                && !within(engines[k].ptr, 8, a);
        assert(in_nodes(engines, a));
    }
    lemma_bodies_kept(m, driven, engines, t, u64_at(t, v));
    // The copy back.
    let d1 = copied(t, arg, driven, p, 16);
    let moved = payload_copied(d1, at(arg, 16), driven, at(p, 16), size);
    let to = u64_at(moved, at(arg, 16));
    let d3 = with_u64(moved, at(to, 16), u64_at(d1, at(u64_at(d1, at(arg, 16)), 16)));
    let e3 = copied(d3, to, driven, outer.ptr, 16);
    let e4 = drm_i915_gem_context_param::value_copied(e3, to, driven, outer.ptr, Value::Engines);
    lemma_chain_copied_ok(
        size_of,
        e4,
        u64_at(e4, at(to, 16)),
        driven,
        u64_at(driven, inner.ptr),
        engines,
        fuel,
    );
    assert(kind.copy_result(t, arg, driven, p, Direction::u2t).0 is Ok) by {
        reveal(drm_i915_gem_context_param::copied_with);
        reveal(i915_context_param_engines::copy_result);
    }
    // The free phase.
    let hd = ShadowView { arenas: h2.arenas, bytes: driven };
    assert(blocks1.insert(inner).union(engines.to_set()).contains(outer));
    lemma_held_owned(before, h2.arenas, blocks1.insert(inner).union(engines.to_set()), outer);
    lemma_param_freed(before, blocks1, hd, outer, inner, engines, t, csrc);
    let h3 = drm_i915_gem_context_param::freed_with(hd, outer.ptr, Value::Engines).1;
    lemma_buffer_leaves(before, h3.arenas, blocks1, outer, outer.ptr, size);
    assert(blocks1.remove(outer) =~= set![root]);
    assert(drm_i915_gem_context_param::freed_with(h3, p, Value::Opaque) == (
        Ok::<(), Error>(()),
        ShadowView { arenas: released(h3.arenas, outer.ptr, size), bytes: driven },
    )) by {
        reveal(drm_i915_gem_context_param::freed_with);
    }
    lemma_second_half(kind, h, t, arg, driven);
}

} // verus!
