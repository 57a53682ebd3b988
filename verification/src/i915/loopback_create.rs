//! Creation of a buffer object with a driver that leaves the copy of the
//! argument as it finds it.
//!
//! The chain of the argument holds extensions of two kinds: those that are
//! copied whole, and those that set a parameter and carry an array behind
//! them. The copy of the chain holds a block for every extension, and a
//! block for every array that has elements.

use vstd::prelude::*;
use crate::buddy_alloc::Arena;
use crate::error::Error;
use crate::holdings::{
    Holding, grant, holding, lemma_buffer_joins, lemma_buffer_leaves, lemma_held_range,
};
use crate::i915::chain::{
    CHAIN_LIMIT, PRELIM_I915_USER_EXT_MASK, i915_user_extension, whole_copied,
};
use crate::i915::loopback::{
    begun, comes_back, gives_back, lemma_exec2_comes_back, lemma_exec2_gives_back,
    lemma_root_held,
};
use crate::i915::{Deep, exec2_finished, exec2_result};
use crate::i915::create_ext::{
    CREATE_EXT_SETPARAM, prelim_drm_i915_gem_create_ext, prelim_drm_i915_gem_create_ext_setparam,
};
use crate::i915::chain::lemma_whole_copied;
use crate::i915::loopback_chains::{
    in_links, in_nodes, lemma_apart_distinct, lemma_clear_of_part, lemma_in_later_nodes,
    lemma_later_apart, lemma_later_clear_of, lemma_linked_reaches, lemma_reaches_kept, linked,
    nodes_apart, nodes_clear_of, reaches,
};
use crate::i915::loopback_query::{
    bufs_apart, bufs_clear_of, in_bufs, lemma_bufs_later, lemma_bufs_later_clear,
    lemma_solid_later, solid,
};
use crate::memory::{PTR_NULL, allocation, same_blocks, same_free, sound};
use crate::shadow::{ShadowView, array_size};
use crate::space::{
    Bytes, at, byte_at, clear, copied, lemma_copied_byte, lemma_kept_u64, lemma_mirrors_agree,
    lemma_mirrors_back, lemma_mirrors_copied, lemma_same_number, lemma_mirrors_framed, lemma_mirrors_join, lemma_mirrors_kept,
    lemma_mirrors_none, lemma_mirrors_part, lemma_mirrors_u32, lemma_put_kept_u64,
    lemma_same_u64, lemma_with_u64, mirrors, offset, same_bytes, u32_at, u64_at, with_u64, within,
};

verus! {

/// The name of the extension at `src`, without its flags.
pub open spec fn ext_name(t: Bytes, src: u64) -> u32 {
    u32_at(t, at(src, 8)) & PRELIM_I915_USER_EXT_MASK
}

/// Whether the extension at `src` sets a parameter.
pub open spec fn is_param(t: Bytes, src: u64) -> bool {
    ext_name(t, src) == CREATE_EXT_SETPARAM
}

/// The size of the extension at `src`, for a name that has a layout.
pub open spec fn node_len(t: Bytes, src: u64) -> Result<usize, Error> {
    prelim_drm_i915_gem_create_ext::size_of_node(ext_name(t, src))
}

/// The size of the array of the extension at `src` that sets a parameter.
pub open spec fn data_len(t: Bytes, src: u64) -> Result<usize, Error> {
    array_size(4, u32_at(t, at(src, 36)) as usize)
}

/// The block that stands for no array.
pub open spec fn nothing() -> Holding {
    Holding { ptr: PTR_NULL, size: 0, len: 0 }
}

/// The block that the copy of the extension at `src` is given.
pub open spec fn node_grant(now: Seq<Arena>, t: Bytes, src: u64) -> Holding {
    grant(now, node_len(t, src)->Ok_0)
}

/// The arenas after the copy of the extension at `src` has been allocated.
pub open spec fn after_node(now: Seq<Arena>, t: Bytes, src: u64) -> Seq<Arena> {
    allocation(now, node_len(t, src)->Ok_0).1
}

/// The block that the array of the copy of the extension at `src` is given:
/// none for an extension that is copied whole.
pub open spec fn data_grant(now: Seq<Arena>, t: Bytes, src: u64) -> Holding {
    if is_param(t, src) {
        grant(after_node(now, t, src), data_len(t, src)->Ok_0)
    } else {
        nothing()
    }
}

/// The arenas after the copy of the extension at `src` and its array have
/// been allocated.
pub open spec fn after_cell(now: Seq<Arena>, t: Bytes, src: u64) -> Seq<Arena> {
    if is_param(t, src) {
        allocation(after_node(now, t, src), data_len(t, src)->Ok_0).1
    } else {
        after_node(now, t, src)
    }
}

/// The blocks that the copies of the extensions from `src` on are given.
pub open spec fn cell_nodes(now: Seq<Arena>, t: Bytes, src: u64, fuel: nat) -> Seq<Holding>
    decreases fuel,
{
    if src == 0 || fuel == 0 {
        Seq::empty()
    } else {
        seq![node_grant(now, t, src)].add(
            cell_nodes(after_cell(now, t, src), t, u64_at(t, src), (fuel - 1) as nat),
        )
    }
}

/// The blocks that the arrays of the copies of the extensions from `src` on
/// are given.
pub open spec fn cell_datas(now: Seq<Arena>, t: Bytes, src: u64, fuel: nat) -> Seq<Holding>
    decreases fuel,
{
    if src == 0 || fuel == 0 {
        Seq::empty()
    } else {
        seq![data_grant(now, t, src)].add(
            cell_datas(after_cell(now, t, src), t, u64_at(t, src), (fuel - 1) as nat),
        )
    }
}

/// Whether the blocks `nodes` and `datas` are as many as the extensions of
/// the chain of the source from `src` on, and as long as the extensions and
/// their arrays, and the chain of the source ends within `fuel` extensions.
pub open spec fn shaped(nodes: Seq<Holding>, datas: Seq<Holding>, t: Bytes, src: u64, fuel: nat) -> bool
    decreases fuel,
{
    if src == 0 {
        nodes.len() == 0 && datas.len() == 0
    } else {
        &&& fuel > 0
        &&& nodes.len() > 0
        &&& datas.len() > 0
        &&& node_len(t, src) == Ok::<usize, Error>(nodes[0].size)
        &&& if is_param(t, src) {
            data_len(t, src) == Ok::<usize, Error>(datas[0].size)
        } else {
            datas[0].size == 0
        }
        &&& shaped(nodes.drop_first(), datas.drop_first(), t, u64_at(t, src), (fuel - 1) as nat)
    }
}

/// Whether the copies `nodes` of the extensions that set a parameter point
/// to their arrays `datas`.
pub open spec fn data_pointed(m: Bytes, nodes: Seq<Holding>, datas: Seq<Holding>, t: Bytes, src: u64) -> bool
    decreases nodes.len(),
{
    nodes.len() == 0 || datas.len() == 0 || ((is_param(t, src) ==> u64_at(m, at(nodes[0].ptr, 48))
        == datas[0].ptr) && data_pointed(
        m,
        nodes.drop_first(),
        datas.drop_first(),
        t,
        u64_at(t, src),
    ))
}

/// Whether every array of `datas` that is a block lies clear of every block
/// of `nodes`.
pub open spec fn cross_clear(nodes: Seq<Holding>, datas: Seq<Holding>) -> bool {
    forall|j: int, k: int|
        0 <= j < nodes.len() && 0 <= k < datas.len() && (#[trigger] datas[k]).size > 0 ==> clear(
            datas[k].ptr,
            datas[k].size as int,
            (#[trigger] nodes[j]).ptr,
            nodes[j].size as int,
        )
}

/// What the alloc phase does for one extension, for a pointer that lies in a
/// block that the call holds: the call holds a new block for the copy of the
/// extension and one for its array, clear of what the call held; the pointer
/// points to the copy, the copy ends the chain and points to its array; and
/// no byte changes outside the pointer and the copy.
pub proof fn lemma_cell_allocated(
    before: Seq<Arena>,
    blocks: Set<Holding>,
    h: ShadowView,
    slot: u64,
    t: Bytes,
    src: u64,
    home: Holding,
)
    requires
        holding(before, h.arenas, blocks),
        blocks.contains(home),
        home.ptr <= slot,
        slot + 8 <= home.ptr + home.size,
        prelim_drm_i915_gem_create_ext::node_allocated(h, slot, t, src).0 is Ok,
    ensures
        ({
            let g = node_grant(h.arenas, t, src);
            let gd = data_grant(h.arenas, t, src);
            let after = prelim_drm_i915_gem_create_ext::node_allocated(h, slot, t, src).1;
            &&& after.arenas == after_cell(h.arenas, t, src)
            &&& holding(
                before,
                after.arenas,
                if gd.size > 0 {
                    blocks.insert(g).insert(gd)
                } else {
                    blocks.insert(g)
                },
            )
            &&& !blocks.contains(g)
            &&& gd.size > 0 ==> !blocks.contains(gd) && gd != g
            &&& node_len(t, src) == Ok::<usize, Error>(g.size)
            &&& g.size >= 40
            &&& g.ptr > 0
            &&& g.ptr + g.size <= usize::MAX
            &&& if is_param(t, src) {
                data_len(t, src) == Ok::<usize, Error>(gd.size)
            } else {
                gd.size == 0
            }
            &&& if gd.size > 0 {
                gd.ptr > 0 && gd.ptr + gd.size <= usize::MAX && clear(
                    gd.ptr,
                    gd.size as int,
                    g.ptr,
                    g.size as int,
                )
            } else {
                gd.ptr == PTR_NULL
            }
            &&& forall|b: Holding| #[trigger]
                blocks.contains(b) ==> clear(g.ptr, g.size as int, b.ptr, b.size as int) && (gd.size
                    > 0 ==> clear(gd.ptr, gd.size as int, b.ptr, b.size as int))
            &&& u64_at(after.bytes, slot) == g.ptr
            &&& u64_at(after.bytes, g.ptr) == 0
            &&& is_param(t, src) ==> u64_at(after.bytes, at(g.ptr, 48)) == gd.ptr
            &&& forall|a: u64|
                !within(slot, 8, a) && !within(g.ptr, g.size as int, a) ==> byte_at(after.bytes, a)
                    == byte_at(h.bytes, a)
        }),
{
    reveal(prelim_drm_i915_gem_create_ext_setparam::allocated);
    let size = node_len(t, src)->Ok_0;
    let g = node_grant(h.arenas, t, src);
    let v = g.ptr;
    let a1 = after_node(h.arenas, t, src);
    let b1 = with_u64(h.bytes, slot, v);
    let b2 = with_u64(b1, v, 0);
    lemma_held_range(before, h.arenas, blocks, home);
    lemma_buffer_joins(before, h.arenas, blocks, size);
    let blocks1 = blocks.insert(g);
    lemma_held_range(before, a1, blocks1, g);
    lemma_with_u64(h.bytes, slot, v);
    lemma_with_u64(b1, v, 0);
    assert(clear(v, size as int, home.ptr, home.size as int));
    lemma_put_kept_u64(b1, v, 0, slot);
    if is_param(t, src) {
        let ds = data_len(t, src)->Ok_0;
        let gd = data_grant(h.arenas, t, src);
        let b3 = with_u64(b2, at(v, 48), gd.ptr);
        lemma_buffer_joins(before, a1, blocks1, ds);
        lemma_with_u64(b2, at(v, 48), gd.ptr);
        lemma_put_kept_u64(b2, at(v, 48), gd.ptr, slot);
        lemma_put_kept_u64(b2, at(v, 48), gd.ptr, v);
        assert(blocks1.contains(g));
        if ds > 0 {
            lemma_held_range(before, allocation(a1, ds).1, blocks1.insert(gd), gd);
            assert forall|b: Holding| #[trigger] blocks.contains(b) implies clear(
                gd.ptr,
                gd.size as int,
                b.ptr,
                b.size as int,
            ) by {
                assert(blocks1.contains(b));
            }
        }
    }
}

/// The blocks that the call holds beside `blocks`: the copies `nodes` and
/// the arrays among `datas`.
pub open spec fn with_cells(blocks: Set<Holding>, nodes: Seq<Holding>, datas: Seq<Holding>) -> Set<
    Holding,
> {
    blocks.union(nodes.to_set()).union(solid(datas))
}

/// The blocks of the later extensions are the later blocks.
pub proof fn lemma_with_cells_later(blocks: Set<Holding>, nodes: Seq<Holding>, datas: Seq<Holding>)
    requires
        nodes.len() > 0,
        datas.len() > 0,
    ensures
        with_cells(blocks, nodes, datas) =~= with_cells(
            if datas[0].size > 0 {
                blocks.insert(nodes[0]).insert(datas[0])
            } else {
                blocks.insert(nodes[0])
            },
            nodes.drop_first(),
            datas.drop_first(),
        ),
{
    let rest = nodes.drop_first();
    let first = if datas[0].size > 0 {
        blocks.insert(nodes[0]).insert(datas[0])
    } else {
        blocks.insert(nodes[0])
    };
    lemma_solid_later(datas);
    assert forall|b: Holding| nodes.to_set().contains(b) <==> b == nodes[0] || rest.to_set().contains(
        b,
    ) by {
        if nodes.to_set().contains(b) {
            let k = choose|k: int| 0 <= k < nodes.len() && nodes[k] == b;
            if k > 0 {
                assert(rest[k - 1] == b);
            }
        }
        if rest.to_set().contains(b) {
            let k = choose|k: int| 0 <= k < rest.len() && rest[k] == b;
            assert(nodes[k + 1] == b);
        }
        if b == nodes[0] {
            assert(nodes[0] == b);
        }
    }
    assert forall|b: Holding| with_cells(blocks, nodes, datas).contains(b) <==> with_cells(
        first,
        rest,
        datas.drop_first(),
    ).contains(b) by {}
}

/// What the alloc phase of the chain does, for a pointer that lies in a
/// block that the call holds and that ends a chain: the call holds a new
/// block for every extension of the source and for every array; the blocks
/// lie clear of what the call held and of each other; the pointer begins the
/// chain of the copies, which point to their arrays; and no byte changes
/// outside the pointer and the copies.
pub proof fn lemma_cells_allocated(
    before: Seq<Arena>,
    blocks: Set<Holding>,
    h: ShadowView,
    slot: u64,
    t: Bytes,
    src: u64,
    fuel: nat,
    home: Holding,
)
    requires
        holding(before, h.arenas, blocks),
        blocks.contains(home),
        home.ptr <= slot,
        slot + 8 <= home.ptr + home.size,
        u64_at(h.bytes, slot) == 0,
        prelim_drm_i915_gem_create_ext::chain_allocated(h, slot, t, src, fuel).0 is Ok,
    ensures
        ({
            let nodes = cell_nodes(h.arenas, t, src, fuel);
            let datas = cell_datas(h.arenas, t, src, fuel);
            let after = prelim_drm_i915_gem_create_ext::chain_allocated(h, slot, t, src, fuel).1;
            &&& holding(before, after.arenas, with_cells(blocks, nodes, datas))
            &&& forall|k: int| 0 <= k < nodes.len() ==> !blocks.contains(#[trigger] nodes[k])
            &&& forall|k: int|
                0 <= k < datas.len() && (#[trigger] datas[k]).size > 0 ==> !blocks.contains(
                    datas[k],
                )
            &&& forall|b: Holding| #[trigger]
                blocks.contains(b) ==> nodes_clear_of(nodes, b.ptr, b.size as int) && bufs_clear_of(
                    datas,
                    b.ptr,
                    b.size as int,
                )
            &&& nodes_apart(nodes)
            &&& bufs_apart(datas)
            &&& cross_clear(nodes, datas)
            &&& shaped(nodes, datas, t, src, fuel)
            &&& linked(after.bytes, slot, nodes)
            &&& data_pointed(after.bytes, nodes, datas, t, src)
            &&& forall|a: u64|
                !within(slot, 8, a) && !in_nodes(nodes, a) ==> byte_at(after.bytes, a) == byte_at(
                    h.bytes,
                    a,
                )
        }),
    decreases fuel,
{
    let nodes = cell_nodes(h.arenas, t, src, fuel);
    let datas = cell_datas(h.arenas, t, src, fuel);
    let after = prelim_drm_i915_gem_create_ext::chain_allocated(h, slot, t, src, fuel).1;
    if src == 0 {
        assert(with_cells(blocks, nodes, datas) =~= blocks);
    } else {
        let g = node_grant(h.arenas, t, src);
        let gd = data_grant(h.arenas, t, src);
        let v = g.ptr;
        let h1 = prelim_drm_i915_gem_create_ext::node_allocated(h, slot, t, src).1;
        let blocks1 = if gd.size > 0 {
            blocks.insert(g).insert(gd)
        } else {
            blocks.insert(g)
        };
        let next = u64_at(t, src);
        lemma_cell_allocated(before, blocks, h, slot, t, src, home);
        let rest = cell_nodes(h1.arenas, t, next, (fuel - 1) as nat);
        let rest_d = cell_datas(h1.arenas, t, next, (fuel - 1) as nat);
        assert(blocks1.contains(g));
        lemma_cells_allocated(before, blocks1, h1, v, t, next, (fuel - 1) as nat, g);
        assert(nodes == seq![g].add(rest));
        assert(datas == seq![gd].add(rest_d));
        assert(nodes.drop_first() =~= rest);
        assert(datas.drop_first() =~= rest_d);
        assert(nodes[0] == g && datas[0] == gd);
        lemma_with_cells_later(blocks, nodes, datas);
        assert forall|k: int| 0 <= k < nodes.len() implies !blocks.contains(#[trigger] nodes[k]) by {
            if k > 0 {
                assert(nodes[k] == rest[k - 1]);
                assert(!blocks1.contains(rest[k - 1]));
            }
        }
        assert forall|k: int| 0 <= k < datas.len() && (#[trigger] datas[k]).size > 0 implies !blocks.contains(
            datas[k],
        ) by {
            if k > 0 {
                assert(datas[k] == rest_d[k - 1]);
                assert(!blocks1.contains(rest_d[k - 1]));
            }
        }
        assert forall|b: Holding| #[trigger] blocks.contains(b) implies nodes_clear_of(
            nodes,
            b.ptr,
            b.size as int,
        ) && bufs_clear_of(datas, b.ptr, b.size as int) by {
            assert(blocks1.contains(b));
            assert(nodes_clear_of(rest, b.ptr, b.size as int));
            assert(bufs_clear_of(rest_d, b.ptr, b.size as int));
            assert forall|k: int| 0 <= k < nodes.len() implies clear(
                (#[trigger] nodes[k]).ptr,
                nodes[k].size as int,
                b.ptr,
                b.size as int,
            ) by {
                if k > 0 {
                    assert(nodes[k] == rest[k - 1]);
                }
            }
            assert forall|k: int| 0 <= k < datas.len() && (#[trigger] datas[k]).size > 0 implies clear(
                datas[k].ptr,
                datas[k].size as int,
                b.ptr,
                b.size as int,
            ) by {
                if k > 0 {
                    assert(datas[k] == rest_d[k - 1]);
                }
            }
        }
        assert(nodes_clear_of(rest, g.ptr, g.size as int));
        assert(bufs_clear_of(rest_d, g.ptr, g.size as int));
        assert(nodes_apart(nodes)) by {
            assert forall|k: int| 0 <= k < nodes.len() implies (#[trigger] nodes[k]).size >= 8
                && nodes[k].ptr > 0 && nodes[k].ptr + nodes[k].size <= usize::MAX by {
                if k > 0 {
                    assert(nodes[k] == rest[k - 1]);
                }
            }
            assert forall|j: int, k: int| 0 <= j < k < nodes.len() implies clear(
                (#[trigger] nodes[j]).ptr,
                nodes[j].size as int,
                (#[trigger] nodes[k]).ptr,
                nodes[k].size as int,
            ) by {
                assert(nodes[k] == rest[k - 1]);
                if j > 0 {
                    assert(nodes[j] == rest[j - 1]);
                }
            }
        }
        assert(bufs_apart(datas)) by {
            if gd.size > 0 {
                assert(blocks1.contains(gd));
                assert(bufs_clear_of(rest_d, gd.ptr, gd.size as int));
            }
            assert forall|k: int| 0 <= k < datas.len() implies if (#[trigger] datas[k]).size > 0 {
                datas[k].ptr > 0 && datas[k].ptr + datas[k].size <= usize::MAX
            } else {
                datas[k].ptr == PTR_NULL
            } by {
                if k > 0 {
                    assert(datas[k] == rest_d[k - 1]);
                }
            }
            assert forall|j: int, k: int|
                0 <= j < k < datas.len() && (#[trigger] datas[j]).size > 0 && (
                #[trigger] datas[k]).size > 0 implies clear(
                datas[j].ptr,
                datas[j].size as int,
                datas[k].ptr,
                datas[k].size as int,
            ) by {
                assert(datas[k] == rest_d[k - 1]);
                if j > 0 {
                    assert(datas[j] == rest_d[j - 1]);
                }
            }
        }
        assert(cross_clear(nodes, datas)) by {
            if gd.size > 0 {
                assert(blocks1.contains(gd));
                assert(nodes_clear_of(rest, gd.ptr, gd.size as int));
            }
            assert forall|j: int, k: int|
                0 <= j < nodes.len() && 0 <= k < datas.len() && (#[trigger] datas[k]).size
                    > 0 implies clear(
                datas[k].ptr,
                datas[k].size as int,
                (#[trigger] nodes[j]).ptr,
                nodes[j].size as int,
            ) by {
                if j > 0 {
                    assert(nodes[j] == rest[j - 1]);
                }
                if k > 0 {
                    assert(datas[k] == rest_d[k - 1]);
                }
                if j > 0 && k == 0 {
                    assert(clear(rest[j - 1].ptr, rest[j - 1].size as int, gd.ptr, gd.size as int));
                }
            }
        }
        assert(blocks1.contains(home));
        assert(nodes_clear_of(rest, home.ptr, home.size as int));
        assert forall|a: u64| within(slot, 8, a) implies byte_at(after.bytes, a) == byte_at(
            h1.bytes,
            a,
        ) by {
            if in_nodes(rest, a) {
                let k = choose|k: int|
                    0 <= k < rest.len() && within((#[trigger] rest[k]).ptr, rest[k].size as int, a);
                assert(clear(rest[k].ptr, rest[k].size as int, home.ptr, home.size as int));
            }
        }
        lemma_same_u64(after.bytes, h1.bytes, slot);
        if is_param(t, src) {
            assert(g.size == 56);
            assert forall|a: u64| within(at(v, 48), 8, a) implies byte_at(after.bytes, a)
                == byte_at(h1.bytes, a) by {
                if in_nodes(rest, a) {
                    let k = choose|k: int|
                        0 <= k < rest.len() && within(
                            (#[trigger] rest[k]).ptr,
                            rest[k].size as int,
                            a,
                        );
                    assert(clear(rest[k].ptr, rest[k].size as int, g.ptr, g.size as int));
                }
            }
            lemma_same_u64(after.bytes, h1.bytes, at(v, 48));
        }
        assert forall|a: u64| !within(slot, 8, a) && !in_nodes(nodes, a) implies byte_at(
            after.bytes,
            a,
        ) == byte_at(h.bytes, a) by {
            lemma_in_later_nodes(nodes, a);
        }
    }
}

/// The number of bytes of the extension at `src` that travel: all but the
/// address of the next extension and, for an extension that sets a
/// parameter, the address of its array.
pub open spec fn body_len(t: Bytes, src: u64, size: usize) -> int {
    if is_param(t, src) {
        40
    } else {
        size - 8
    }
}

/// What a copy does to the copy at `v` of the extension at `src`.
pub open spec fn cell_copied(d: Bytes, v: u64, t: Bytes, src: u64) -> Bytes {
    if is_param(t, src) {
        prelim_drm_i915_gem_create_ext_setparam::copy_result(
            i915_user_extension::header_copied(d, v, t, src),
            v,
            t,
            src,
        ).1
    } else {
        whole_copied(d, v, t, src, node_len(t, src)->Ok_0 as nat)
    }
}

/// What the copy of one extension is, for an extension whose sizes can be
/// read.
pub proof fn lemma_node_copied(d: Bytes, slot: u64, t: Bytes, src: u64)
    requires
        node_len(t, src) is Ok,
        is_param(t, src) ==> data_len(t, src) is Ok,
    ensures
        prelim_drm_i915_gem_create_ext::node_copied(d, slot, t, src) == (
            Ok::<(), Error>(()),
            cell_copied(d, u64_at(d, slot), t, src),
        ),
{
    reveal(prelim_drm_i915_gem_create_ext_setparam::copy_result);
}

/// What the copy out of one extension does, for a copy that points to its
/// array: the body of the copy mirrors the body of the extension and the
/// array its array, the copy keeps its place in its chain and its array,
/// and no other byte changes.
pub proof fn lemma_cell_out(d: Bytes, v: u64, size: usize, vd: u64, ds: usize, t: Bytes, src: u64)
    requires
        v + size <= 0x1_0000_0000_0000_0000,
        node_len(t, src) == Ok::<usize, Error>(size),
        if is_param(t, src) {
            data_len(t, src) == Ok::<usize, Error>(ds) && u64_at(d, at(v, 48)) == vd
        } else {
            ds == 0
        },
        ds > 0 ==> clear(vd, ds as int, v, size as int),
    ensures
        ({
            let x = cell_copied(d, v, t, src);
            &&& mirrors(x, at(v, 8), t, at(src, 8), body_len(t, src, size))
            &&& mirrors(x, vd, t, u64_at(t, at(src, 48)), ds as int)
            &&& u64_at(x, v) == u64_at(d, v)
            &&& is_param(t, src) ==> u64_at(x, at(v, 48)) == vd
            &&& forall|a: u64|
                !within(v, size as int, a) && !(ds > 0 && within(vd, ds as int, a)) ==> byte_at(x, a)
                    == byte_at(d, a)
        }),
{
    let data = u64_at(t, at(src, 48));
    if is_param(t, src) {
        reveal(prelim_drm_i915_gem_create_ext_setparam::copy_result);
        assert(size == 56);
        let d1 = copied(d, at(v, 8), t, at(src, 8), 24);
        let d2 = copied(d1, at(v, 32), t, at(src, 32), 16);
        let x = copied(d2, vd, t, data, ds as nat);
        lemma_mirrors_copied(d, at(v, 8), t, at(src, 8), 24);
        lemma_kept_u64(d, at(v, 8), t, at(src, 8), 24, v);
        lemma_kept_u64(d, at(v, 8), t, at(src, 8), 24, at(v, 48));
        lemma_mirrors_kept(d1, at(v, 32), t, at(src, 32), 16, at(v, 8), t, at(src, 8), 24);
        lemma_mirrors_copied(d1, at(v, 32), t, at(src, 32), 16);
        lemma_kept_u64(d1, at(v, 32), t, at(src, 32), 16, v);
        lemma_kept_u64(d1, at(v, 32), t, at(src, 32), 16, at(v, 48));
        assert(at(at(v, 8), 24) == at(v, 32) && at(at(src, 8), 24) == at(src, 32));
        lemma_mirrors_join(d2, at(v, 8), t, at(src, 8), 24, 16);
        lemma_mirrors_kept(d2, vd, t, data, ds as nat, at(v, 8), t, at(src, 8), 40);
        lemma_mirrors_copied(d2, vd, t, data, ds as nat);
        if ds > 0 {
            lemma_kept_u64(d2, vd, t, data, ds as nat, v);
            lemma_kept_u64(d2, vd, t, data, ds as nat, at(v, 48));
        }
        assert forall|a: u64|
            !within(v, size as int, a) && !(ds > 0 && within(vd, ds as int, a)) implies byte_at(x, a)
            == byte_at(d, a) by {
            lemma_copied_byte(d, at(v, 8), t, at(src, 8), 24, a);
            lemma_copied_byte(d1, at(v, 32), t, at(src, 32), 16, a);
            lemma_copied_byte(d2, vd, t, data, ds as nat, a);
        }
    } else {
        let x = whole_copied(d, v, t, src, size as nat);
        assert(size == 40);
        lemma_mirrors_none(x, vd, t, data);
        assert forall|a: u64| !(within(v, size as int, a) && !within(v, 8, a)) implies byte_at(x, a)
            == byte_at(d, a) by {
            lemma_whole_copied(d, v, t, src, size as nat, a);
        }
        lemma_same_u64(x, d, v);
        assert(mirrors(x, at(v, 8), t, at(src, 8), size - 8)) by {
            reveal(mirrors);
            assert forall|i: int| 0 <= i < size - 8 implies byte_at(x, #[trigger] at(at(v, 8), i))
                == byte_at(t, at(at(src, 8), i)) by {
                let a = at(at(v, 8), i);
                lemma_whole_copied(d, v, t, src, size as nat, a);
                assert(offset(v, a) == 8 + i);
                assert(at(src, 8 + i) == at(at(src, 8), i));
            }
        }
    }
}

/// Whether the bodies of the copies `nodes` and the arrays `datas` in `m`
/// mirror the extensions of the chain of the source from `src` on and their
/// arrays.
pub open spec fn cells_mirror(m: Bytes, nodes: Seq<Holding>, datas: Seq<Holding>, t: Bytes, src: u64) -> bool
    decreases nodes.len(),
{
    nodes.len() == 0 || datas.len() == 0 || (mirrors(
        m,
        at(nodes[0].ptr, 8),
        t,
        at(src, 8),
        body_len(t, src, nodes[0].size),
    ) && mirrors(m, datas[0].ptr, t, u64_at(t, at(src, 48)), datas[0].size as int)
        && cells_mirror(m, nodes.drop_first(), datas.drop_first(), t, u64_at(t, src)))
}

/// The copies stay pointed at their arrays as long as no byte of them
/// changes.
pub proof fn lemma_data_pointed_kept(
    m: Bytes,
    x: Bytes,
    nodes: Seq<Holding>,
    datas: Seq<Holding>,
    t: Bytes,
    src: u64,
    fuel: nat,
)
    requires
        data_pointed(m, nodes, datas, t, src),
        shaped(nodes, datas, t, src, fuel),
        nodes_apart(nodes),
        forall|a: u64| in_nodes(nodes, a) ==> byte_at(x, a) == byte_at(m, a),
    ensures
        data_pointed(x, nodes, datas, t, src),
    decreases nodes.len(),
{
    if nodes.len() > 0 && datas.len() > 0 {
        let rest = nodes.drop_first();
        lemma_later_apart(nodes);
        if is_param(t, src) {
            assert(nodes[0].size == 56);
            assert forall|a: u64| within(at(nodes[0].ptr, 48), 8, a) implies byte_at(x, a)
                == byte_at(m, a) by {
                assert(within(nodes[0].ptr, nodes[0].size as int, a));
                assert(in_nodes(nodes, a));
            }
            lemma_same_u64(x, m, at(nodes[0].ptr, 48));
        }
        assert forall|a: u64| in_nodes(rest, a) implies byte_at(x, a) == byte_at(m, a) by {
            lemma_in_later_nodes(nodes, a);
        }
        assert(src != 0) by {
            if src == 0 {
                assert(nodes.len() == 0);
            }
        }
        lemma_data_pointed_kept(
            m,
            x,
            rest,
            datas.drop_first(),
            t,
            u64_at(t, src),
            (fuel - 1) as nat,
        );
    }
}

/// Copies and arrays mirror what they mirror as long as no byte of them
/// changes.
pub proof fn lemma_cells_mirror_kept(
    m: Bytes,
    x: Bytes,
    nodes: Seq<Holding>,
    datas: Seq<Holding>,
    t: Bytes,
    src: u64,
    fuel: nat,
)
    requires
        cells_mirror(m, nodes, datas, t, src),
        shaped(nodes, datas, t, src, fuel),
        nodes_apart(nodes),
        bufs_apart(datas),
        forall|a: u64| in_nodes(nodes, a) || in_bufs(datas, a) ==> byte_at(x, a) == byte_at(m, a),
    ensures
        cells_mirror(x, nodes, datas, t, src),
    decreases nodes.len(),
{
    if nodes.len() > 0 && datas.len() > 0 {
        let rest = nodes.drop_first();
        let rest_d = datas.drop_first();
        let v = nodes[0].ptr;
        lemma_later_apart(nodes);
        lemma_bufs_later(datas);
        assert(src != 0) by {
            if src == 0 {
                assert(nodes.len() == 0);
            }
        }
        assert forall|a: u64| within(at(v, 8), body_len(t, src, nodes[0].size), a) implies byte_at(
            x,
            a,
        ) == byte_at(m, a) by {
            assert(within(v, nodes[0].size as int, a));
            assert(in_nodes(nodes, a));
        }
        lemma_mirrors_framed(m, x, at(v, 8), t, at(src, 8), body_len(t, src, nodes[0].size));
        if datas[0].size > 0 {
            assert forall|a: u64| within(datas[0].ptr, datas[0].size as int, a) implies byte_at(x, a)
                == byte_at(m, a) by {
                assert(in_bufs(datas, a));
            }
            lemma_mirrors_framed(
                m,
                x,
                datas[0].ptr,
                t,
                u64_at(t, at(src, 48)),
                datas[0].size as int,
            );
        } else {
            lemma_mirrors_none(x, datas[0].ptr, t, u64_at(t, at(src, 48)));
        }
        assert forall|a: u64| in_nodes(rest, a) || in_bufs(rest_d, a) implies byte_at(x, a)
            == byte_at(m, a) by {
            lemma_in_later_nodes(nodes, a);
            if in_bufs(rest_d, a) {
                let k = choose|k: int|
                    0 <= k < rest_d.len() && (#[trigger] rest_d[k]).size > 0 && within(
                        rest_d[k].ptr,
                        rest_d[k].size as int,
                        a,
                    );
                assert(datas[k + 1] == rest_d[k]);
                assert(in_bufs(datas, a));
            }
        }
        lemma_cells_mirror_kept(m, x, rest, rest_d, t, u64_at(t, src), (fuel - 1) as nat);
    }
}

/// The later arrays lie clear of the later copies and of the first copy,
/// and the later copies of the first array.
pub proof fn lemma_cross_later(nodes: Seq<Holding>, datas: Seq<Holding>)
    requires
        nodes.len() > 0,
        datas.len() > 0,
        cross_clear(nodes, datas),
    ensures
        cross_clear(nodes.drop_first(), datas.drop_first()),
        bufs_clear_of(datas.drop_first(), nodes[0].ptr, nodes[0].size as int),
        datas[0].size > 0 ==> nodes_clear_of(
            nodes.drop_first(),
            datas[0].ptr,
            datas[0].size as int,
        ) && clear(datas[0].ptr, datas[0].size as int, nodes[0].ptr, nodes[0].size as int),
{
    let rest = nodes.drop_first();
    let rest_d = datas.drop_first();
    assert forall|j: int, k: int|
        0 <= j < rest.len() && 0 <= k < rest_d.len() && (#[trigger] rest_d[k]).size > 0 implies clear(
        rest_d[k].ptr,
        rest_d[k].size as int,
        (#[trigger] rest[j]).ptr,
        rest[j].size as int,
    ) by {
        assert(rest[j] == nodes[j + 1]);
        assert(rest_d[k] == datas[k + 1]);
    }
    assert forall|k: int| 0 <= k < rest_d.len() && (#[trigger] rest_d[k]).size > 0 implies clear(
        rest_d[k].ptr,
        rest_d[k].size as int,
        nodes[0].ptr,
        nodes[0].size as int,
    ) by {
        assert(rest_d[k] == datas[k + 1]);
        assert(clear(datas[k + 1].ptr, datas[k + 1].size as int, nodes[0].ptr, nodes[0].size as int));
    }
    if datas[0].size > 0 {
        assert forall|j: int| 0 <= j < rest.len() implies clear(
            (#[trigger] rest[j]).ptr,
            rest[j].size as int,
            datas[0].ptr,
            datas[0].size as int,
        ) by {
            assert(rest[j] == nodes[j + 1]);
            assert(clear(datas[0].ptr, datas[0].size as int, nodes[j + 1].ptr, nodes[j + 1].size as int));
        }
        assert(clear(datas[0].ptr, datas[0].size as int, nodes[0].ptr, nodes[0].size as int));
    }
}

/// A byte of one of the later arrays is a byte of one of the arrays.
pub proof fn lemma_in_later_bufs(datas: Seq<Holding>, a: u64)
    requires
        datas.len() > 0,
    ensures
        in_bufs(datas, a) <==> (datas[0].size > 0 && within(datas[0].ptr, datas[0].size as int, a))
            || in_bufs(datas.drop_first(), a),
{
    let rest = datas.drop_first();
    if in_bufs(datas, a) {
        let k = choose|k: int|
            0 <= k < datas.len() && (#[trigger] datas[k]).size > 0 && within(
                datas[k].ptr,
                datas[k].size as int,
                a,
            );
        if k > 0 {
            assert(rest[k - 1] == datas[k]);
        }
    }
    if in_bufs(rest, a) {
        let k = choose|k: int|
            0 <= k < rest.len() && (#[trigger] rest[k]).size > 0 && within(
                rest[k].ptr,
                rest[k].size as int,
                a,
            );
        assert(datas[k + 1] == rest[k]);
    }
}

/// A byte of a block that the later copies and arrays lie clear of is no
/// byte of them.
pub proof fn lemma_outside_later(nodes: Seq<Holding>, datas: Seq<Holding>, base: u64, len: int, a: u64)
    requires
        nodes_clear_of(nodes, base, len),
        bufs_clear_of(datas, base, len),
        within(base, len, a),
    ensures
        !in_nodes(nodes, a),
        !in_bufs(datas, a),
{
    if in_nodes(nodes, a) {
        let k = choose|k: int|
            0 <= k < nodes.len() && within((#[trigger] nodes[k]).ptr, nodes[k].size as int, a);
        assert(clear(nodes[k].ptr, nodes[k].size as int, base, len));
    }
    if in_bufs(datas, a) {
        let k = choose|k: int|
            0 <= k < datas.len() && (#[trigger] datas[k]).size > 0 && within(
                datas[k].ptr,
                datas[k].size as int,
                a,
            );
        assert(clear(datas[k].ptr, datas[k].size as int, base, len));
    }
}

/// Whether the copies `nodes` and the arrays `datas` lie as the alloc phase
/// leaves them: clear of each other and of the pointer at `slot`, as many
/// and as long as the extensions of the source and their arrays.
pub open spec fn cells_laid(
    nodes: Seq<Holding>,
    datas: Seq<Holding>,
    slot: u64,
    t: Bytes,
    src: u64,
    fuel: nat,
) -> bool {
    &&& shaped(nodes, datas, t, src, fuel)
    &&& nodes_apart(nodes)
    &&& bufs_apart(datas)
    &&& cross_clear(nodes, datas)
    &&& nodes_clear_of(nodes, slot, 8)
    &&& bufs_clear_of(datas, slot, 8)
}

/// What lies as the alloc phase leaves it lies so for the later extensions.
pub proof fn lemma_cells_laid_later(
    nodes: Seq<Holding>,
    datas: Seq<Holding>,
    slot: u64,
    t: Bytes,
    src: u64,
    fuel: nat,
)
    requires
        cells_laid(nodes, datas, slot, t, src, fuel),
        src != 0,
    ensures
        cells_laid(
            nodes.drop_first(),
            datas.drop_first(),
            nodes[0].ptr,
            t,
            u64_at(t, src),
            (fuel - 1) as nat,
        ),
        nodes_clear_of(nodes.drop_first(), nodes[0].ptr, nodes[0].size as int),
        bufs_clear_of(datas.drop_first(), nodes[0].ptr, nodes[0].size as int),
        datas[0].size > 0 ==> nodes_clear_of(
            nodes.drop_first(),
            datas[0].ptr,
            datas[0].size as int,
        ) && bufs_clear_of(datas.drop_first(), datas[0].ptr, datas[0].size as int) && clear(
            datas[0].ptr,
            datas[0].size as int,
            nodes[0].ptr,
            nodes[0].size as int,
        ) && clear(datas[0].ptr, datas[0].size as int, slot, 8),
        clear(nodes[0].ptr, nodes[0].size as int, slot, 8),
        nodes[0].size >= 40,
        nodes[0].ptr > 0,
        nodes[0].ptr + nodes[0].size <= usize::MAX,
        is_param(t, src) ==> nodes[0].size == 56,
{
    lemma_later_apart(nodes);
    lemma_bufs_later(datas);
    lemma_cross_later(nodes, datas);
    lemma_later_clear_of(nodes, slot, 8);
    lemma_bufs_later_clear(datas, slot, 8);
    lemma_clear_of_part(nodes.drop_first(), nodes[0].ptr, nodes[0].size as int, nodes[0].ptr, 8);
    let rest_d = datas.drop_first();
    assert forall|k: int| 0 <= k < rest_d.len() && (#[trigger] rest_d[k]).size > 0 implies clear(
        rest_d[k].ptr,
        rest_d[k].size as int,
        nodes[0].ptr,
        8,
    ) by {
        assert(clear(rest_d[k].ptr, rest_d[k].size as int, nodes[0].ptr, nodes[0].size as int));
    }
}

/// What the copy out of the chain does, for a pointer that begins the chain
/// of the copies, which point to their arrays: the copies stay linked and
/// pointed as they are, copies and arrays mirror the extensions of the
/// source and their arrays, and no byte changes outside them.
pub proof fn lemma_cells_copied_out(
    d: Bytes,
    slot: u64,
    nodes: Seq<Holding>,
    datas: Seq<Holding>,
    t: Bytes,
    src: u64,
    fuel: nat,
)
    requires
        cells_laid(nodes, datas, slot, t, src, fuel),
        u64_at(d, slot) == (if nodes.len() > 0 {
            nodes[0].ptr
        } else {
            0
        }),
        reaches(d, u64_at(d, slot), nodes),
        data_pointed(d, nodes, datas, t, src),
    ensures
        ({
            let (r, after) = prelim_drm_i915_gem_create_ext::chain_copied(d, slot, t, src, fuel);
            &&& r is Ok
            &&& u64_at(after, slot) == u64_at(d, slot)
            &&& reaches(after, u64_at(d, slot), nodes)
            &&& data_pointed(after, nodes, datas, t, src)
            &&& cells_mirror(after, nodes, datas, t, src)
            &&& forall|a: u64|
                !in_nodes(nodes, a) && !in_bufs(datas, a) ==> byte_at(after, a) == byte_at(d, a)
        }),
    decreases fuel,
{
    if src != 0 {
        let rest = nodes.drop_first();
        let rest_d = datas.drop_first();
        let v = nodes[0].ptr;
        let size = nodes[0].size;
        let vd = datas[0].ptr;
        let ds = datas[0].size;
        let next = u64_at(t, src);
        lemma_cells_laid_later(nodes, datas, slot, t, src, fuel);
        lemma_node_copied(d, slot, t, src);
        lemma_cell_out(d, v, size, vd, ds, t, src);
        let x = cell_copied(d, v, t, src);
        assert forall|a: u64| within(slot, 8, a) implies byte_at(x, a) == byte_at(d, a) by {}
        lemma_same_u64(x, d, slot);
        assert forall|a: u64| in_nodes(rest, a) implies byte_at(x, a) == byte_at(d, a) by {
            let k = choose|k: int|
                0 <= k < rest.len() && within((#[trigger] rest[k]).ptr, rest[k].size as int, a);
            assert(clear(rest[k].ptr, rest[k].size as int, v, size as int));
            if ds > 0 {
                assert(clear(rest[k].ptr, rest[k].size as int, vd, ds as int));
            }
        }
        assert forall|a: u64| in_links(rest, a) implies byte_at(x, a) == byte_at(d, a) by {
            let k = choose|k: int| 0 <= k < rest.len() && within((#[trigger] rest[k]).ptr, 8, a);
            assert(rest[k].size >= 8);
            assert(within(rest[k].ptr, rest[k].size as int, a));
            assert(in_nodes(rest, a));
        }
        lemma_reaches_kept(d, x, u64_at(d, v), rest);
        lemma_data_pointed_kept(d, x, rest, rest_d, t, next, (fuel - 1) as nat);
        assert(u64_at(x, v) == (if rest.len() > 0 {
            rest[0].ptr
        } else {
            0
        }));
        lemma_cells_copied_out(x, v, rest, rest_d, t, next, (fuel - 1) as nat);
        let after = prelim_drm_i915_gem_create_ext::chain_copied(x, v, t, next, (fuel - 1) as nat).1;
        assert forall|a: u64|
            within(slot, 8, a) || within(v, size as int, a) || (ds > 0 && within(
                vd,
                ds as int,
                a,
            )) implies byte_at(after, a) == byte_at(x, a) by {
            if within(slot, 8, a) {
                lemma_outside_later(rest, rest_d, slot, 8, a);
            } else if within(v, size as int, a) {
                lemma_outside_later(rest, rest_d, v, size as int, a);
            } else {
                lemma_outside_later(rest, rest_d, vd, ds as int, a);
            }
        }
        lemma_same_u64(after, x, slot);
        if is_param(t, src) {
            lemma_same_u64(after, x, at(v, 48));
        }
        lemma_mirrors_framed(x, after, at(v, 8), t, at(src, 8), body_len(t, src, size));
        if ds > 0 {
            lemma_mirrors_framed(x, after, vd, t, u64_at(t, at(src, 48)), ds as int);
        } else {
            lemma_mirrors_none(after, vd, t, u64_at(t, at(src, 48)));
        }
        assert forall|a: u64| !in_nodes(nodes, a) && !in_bufs(datas, a) implies byte_at(after, a)
            == byte_at(d, a) by {
            lemma_in_later_nodes(nodes, a);
            lemma_in_later_bufs(datas, a);
        }
    }
}

/// What the copy `v` of the extension at `x` holds, for a copy that mirrors
/// the extension: its name and sizes.
pub proof fn lemma_cell_reads(m: Bytes, v: u64, t: Bytes, x: u64, size: usize)
    requires
        node_len(t, x) == Ok::<usize, Error>(size),
        mirrors(m, at(v, 8), t, at(x, 8), body_len(t, x, size)),
    ensures
        ext_name(m, v) == ext_name(t, x),
        node_len(m, v) == node_len(t, x),
        is_param(t, x) ==> data_len(m, v) == data_len(t, x),
{
    lemma_mirrors_part(m, at(v, 8), t, at(x, 8), body_len(t, x, size), 0, 4);
    assert(at(at(v, 8), 0) == at(v, 8) && at(at(x, 8), 0) == at(x, 8));
    lemma_mirrors_u32(m, at(v, 8), t, at(x, 8));
    if is_param(t, x) {
        lemma_mirrors_part(m, at(v, 8), t, at(x, 8), 40, 28, 4);
        assert(at(at(v, 8), 28) == at(v, 36) && at(at(x, 8), 28) == at(x, 36));
        lemma_mirrors_u32(m, at(v, 36), t, at(x, 36));
    }
}

/// What the copy back of one extension does, from a copy that mirrors the
/// extension and points to an array that mirrors its array: the trusted
/// memory stays as it was.
pub proof fn lemma_cell_back(near: Bytes, t: Bytes, x: u64, m: Bytes, v: u64, size: usize, vd: u64, ds: usize)
    requires
        same_bytes(near, t),
        node_len(t, x) == Ok::<usize, Error>(size),
        if is_param(t, x) {
            data_len(t, x) == Ok::<usize, Error>(ds) && u64_at(m, at(v, 48)) == vd
        } else {
            ds == 0
        },
        mirrors(m, at(v, 8), t, at(x, 8), body_len(t, x, size)),
        mirrors(m, vd, t, u64_at(t, at(x, 48)), ds as int),
    ensures
        same_bytes(cell_copied(near, x, m, v), t),
{
    lemma_cell_reads(m, v, t, x, size);
    if is_param(t, x) {
        reveal(prelim_drm_i915_gem_create_ext_setparam::copy_result);
        lemma_mirrors_part(m, at(v, 8), t, at(x, 8), 40, 0, 24);
        assert(at(at(v, 8), 0) == at(v, 8) && at(at(x, 8), 0) == at(x, 8));
        let n1 = copied(near, at(x, 8), m, at(v, 8), 24);
        lemma_mirrors_back(near, t, at(x, 8), m, at(v, 8), 24);
        lemma_mirrors_part(m, at(v, 8), t, at(x, 8), 40, 24, 16);
        assert(at(at(v, 8), 24) == at(v, 32) && at(at(x, 8), 24) == at(x, 32));
        let n2 = copied(n1, at(x, 32), m, at(v, 32), 16);
        lemma_mirrors_back(n1, t, at(x, 32), m, at(v, 32), 16);
        lemma_same_u64(n2, t, at(x, 48));
        lemma_mirrors_back(n2, t, u64_at(t, at(x, 48)), m, vd, ds as nat);
    } else {
        assert(size == 40);
        let n1 = whole_copied(near, x, m, v, size as nat);
        assert forall|a: u64| byte_at(n1, a) == byte_at(t, a) by {
            lemma_whole_copied(near, x, m, v, size as nat, a);
            if within(x, size as int, a) && !within(x, 8, a) {
                let i = offset(x, a) - 8;
                reveal(mirrors);
                assert(at(at(v, 8), i) == at(v, offset(x, a)));
                assert(at(at(x, 8), i) == a);
            }
        }
    }
}

/// What the copy back of the chain does, from copies and arrays that mirror
/// the extensions of the trusted chain and their arrays: the trusted memory
/// stays as it was.
pub proof fn lemma_cells_copied_back(
    near: Bytes,
    t: Bytes,
    slot: u64,
    m: Bytes,
    first: u64,
    nodes: Seq<Holding>,
    datas: Seq<Holding>,
    fuel: nat,
)
    requires
        same_bytes(near, t),
        reaches(m, first, nodes),
        shaped(nodes, datas, t, u64_at(t, slot), fuel),
        data_pointed(m, nodes, datas, t, u64_at(t, slot)),
        cells_mirror(m, nodes, datas, t, u64_at(t, slot)),
        nodes_apart(nodes),
    ensures
        prelim_drm_i915_gem_create_ext::chain_copied(near, slot, m, first, fuel).0 is Ok,
        same_bytes(prelim_drm_i915_gem_create_ext::chain_copied(near, slot, m, first, fuel).1, t),
    decreases fuel,
{
    let x = u64_at(t, slot);
    if nodes.len() > 0 {
        assert(x != 0) by {
            if x == 0 {
                assert(nodes.len() == 0);
            }
        }
        let v = nodes[0].ptr;
        let size = nodes[0].size;
        lemma_later_apart(nodes);
        lemma_same_u64(near, t, slot);
        lemma_cell_reads(m, v, t, x, size);
        lemma_node_copied(near, slot, m, v);
        lemma_cell_back(near, t, x, m, v, size, datas[0].ptr, datas[0].size);
        let n1 = cell_copied(near, x, m, v);
        lemma_same_u64(n1, t, slot);
        lemma_cells_copied_back(
            n1,
            t,
            x,
            m,
            u64_at(m, v),
            nodes.drop_first(),
            datas.drop_first(),
            (fuel - 1) as nat,
        );
    } else {
        assert(first == 0);
    }
}

/// An array that lies clear of every copy is none of the copies.
pub proof fn lemma_data_distinct(nodes: Seq<Holding>, datas: Seq<Holding>)
    requires
        nodes.len() > 0,
        datas.len() > 0,
        nodes_apart(nodes),
        bufs_apart(datas),
        cross_clear(nodes, datas),
    ensures
        datas[0].size > 0 ==> !nodes.to_set().contains(datas[0]) && !solid(
            datas.drop_first(),
        ).contains(datas[0]),
        !nodes.drop_first().to_set().contains(nodes[0]),
        !solid(datas.drop_first()).contains(nodes[0]),
{
    lemma_apart_distinct(nodes);
    lemma_bufs_later(datas);
    let rest_d = datas.drop_first();
    if datas[0].size > 0 && nodes.to_set().contains(datas[0]) {
        let j = choose|j: int| 0 <= j < nodes.len() && nodes[j] == datas[0];
        assert(clear(datas[0].ptr, datas[0].size as int, nodes[j].ptr, nodes[j].size as int));
    }
    if solid(rest_d).contains(nodes[0]) {
        let k = choose|k: int| 0 <= k < rest_d.len() && rest_d[k] == nodes[0];
        assert(rest_d[k] == datas[k + 1]);
        assert(clear(datas[k + 1].ptr, datas[k + 1].size as int, nodes[0].ptr, nodes[0].size as int));
    }
}

/// What the free phase of the chain does, for copies and arrays that the
/// call holds and that mirror the extensions of the trusted chain: every
/// array and every copy is given back, and the call holds what it held
/// beside them.
pub proof fn lemma_cells_freed(
    before: Seq<Arena>,
    blocks: Set<Holding>,
    h: ShadowView,
    first: u64,
    nodes: Seq<Holding>,
    datas: Seq<Holding>,
    t: Bytes,
    src: u64,
    fuel: nat,
)
    requires
        holding(before, h.arenas, with_cells(blocks, nodes, datas)),
        forall|k: int| 0 <= k < nodes.len() ==> !blocks.contains(#[trigger] nodes[k]),
        forall|k: int|
            0 <= k < datas.len() && (#[trigger] datas[k]).size > 0 ==> !blocks.contains(datas[k]),
        nodes_apart(nodes),
        bufs_apart(datas),
        cross_clear(nodes, datas),
        shaped(nodes, datas, t, src, fuel),
        reaches(h.bytes, first, nodes),
        data_pointed(h.bytes, nodes, datas, t, src),
        cells_mirror(h.bytes, nodes, datas, t, src),
    ensures
        ({
            let (r, after) = prelim_drm_i915_gem_create_ext::chain_freed(h, first, fuel);
            &&& r is Ok
            &&& after.bytes == h.bytes
            &&& holding(before, after.arenas, blocks)
        }),
    decreases fuel,
{
    if nodes.len() == 0 {
        assert(datas.len() == 0) by {
            if src != 0 {
            }
        }
        assert(with_cells(blocks, nodes, datas) =~= blocks);
    } else {
        reveal(prelim_drm_i915_gem_create_ext_setparam::freed);
        assert(src != 0) by {
            if src == 0 {
                assert(nodes.len() == 0);
            }
        }
        let rest = nodes.drop_first();
        let rest_d = datas.drop_first();
        let g = nodes[0];
        let gd = datas[0];
        let m = h.bytes;
        lemma_later_apart(nodes);
        lemma_bufs_later(datas);
        lemma_cross_later(nodes, datas);
        lemma_data_distinct(nodes, datas);
        lemma_cell_reads(m, g.ptr, t, src, g.size);
        lemma_with_cells_later(blocks, nodes, datas);
        let all = with_cells(blocks, nodes, datas);
        assert(nodes.to_set().contains(g));
        assert(all.contains(g));
        if gd.size > 0 {
            assert(datas.contains(gd));
            assert(all.contains(gd));
        }
        lemma_buffer_leaves(before, h.arenas, all, gd, gd.ptr, gd.size);
        let left1 = if gd.size > 0 {
            all.remove(gd)
        } else {
            all
        };
        let a1 = crate::memory::released(h.arenas, gd.ptr, gd.size);
        assert(left1.contains(g)) by {
            if gd.size > 0 {
                assert(gd != g);
            }
        }
        lemma_buffer_leaves(before, a1, left1, g, g.ptr, g.size);
        let a2 = crate::memory::released(a1, g.ptr, g.size);
        assert(left1.remove(g) =~= with_cells(blocks, rest, rest_d)) by {
            assert forall|b: Holding| left1.remove(g).contains(b) <==> with_cells(
                blocks,
                rest,
                rest_d,
            ).contains(b) by {
                if rest.to_set().contains(b) {
                    let k = choose|k: int| 0 <= k < rest.len() && rest[k] == b;
                    assert(nodes[k + 1] == b);
                }
                if solid(rest_d).contains(b) {
                    let k = choose|k: int| 0 <= k < rest_d.len() && rest_d[k] == b;
                    assert(datas[k + 1] == b);
                }
            }
        }
        let h2 = ShadowView { arenas: a2, bytes: m };
        assert forall|k: int| 0 <= k < rest.len() implies !blocks.contains(#[trigger] rest[k]) by {
            assert(rest[k] == nodes[k + 1]);
        }
        assert forall|k: int| 0 <= k < rest_d.len() && (#[trigger] rest_d[k]).size > 0 implies !blocks.contains(
            rest_d[k],
        ) by {
            assert(rest_d[k] == datas[k + 1]);
        }
        if !is_param(t, src) {
            assert(a1 == h.arenas);
        }
        lemma_cells_freed(
            before,
            blocks,
            h2,
            u64_at(m, g.ptr),
            rest,
            rest_d,
            t,
            u64_at(t, src),
            (fuel - 1) as nat,
        );
    }
}

/// The copy of the argument that creates a buffer object after the copy
/// out: it mirrors the scalar fields of the argument and begins the chain of
/// the copies, which point to their arrays; copies and arrays mirror the
/// extensions of the argument and their arrays.
pub proof fn lemma_create_mirrored(
    b: Bytes,
    p: u64,
    nodes: Seq<Holding>,
    datas: Seq<Holding>,
    t: Bytes,
    arg: u64,
)
    requires
        p + 24 <= 0x1_0000_0000_0000_0000,
        linked(b, at(p, 16), nodes),
        data_pointed(b, nodes, datas, t, u64_at(t, at(arg, 16))),
        cells_laid(nodes, datas, at(p, 16), t, u64_at(t, at(arg, 16)), CHAIN_LIMIT as nat),
        nodes_clear_of(nodes, p, 24),
        bufs_clear_of(datas, p, 24),
    ensures
        ({
            let (r, m) = prelim_drm_i915_gem_create_ext::copy_result(b, p, t, arg);
            &&& r is Ok
            &&& mirrors(m, p, t, arg, 16)
            &&& reaches(m, u64_at(m, at(p, 16)), nodes)
            &&& data_pointed(m, nodes, datas, t, u64_at(t, at(arg, 16)))
            &&& cells_mirror(m, nodes, datas, t, u64_at(t, at(arg, 16)))
        }),
{
    let fuel = CHAIN_LIMIT as nat;
    let x0 = u64_at(t, at(arg, 16));
    let slot = at(p, 16);
    let d0 = copied(b, p, t, arg, 16);
    lemma_linked_reaches(b, slot, nodes);
    lemma_kept_u64(b, p, t, arg, 16, slot);
    lemma_mirrors_copied(b, p, t, arg, 16);
    assert forall|a: u64| in_nodes(nodes, a) implies byte_at(d0, a) == byte_at(b, a) by {
        let k = choose|k: int|
            0 <= k < nodes.len() && within((#[trigger] nodes[k]).ptr, nodes[k].size as int, a);
        assert(clear(nodes[k].ptr, nodes[k].size as int, p, 24));
        lemma_copied_byte(b, p, t, arg, 16, a);
    }
    assert forall|a: u64| in_links(nodes, a) implies byte_at(d0, a) == byte_at(b, a) by {
        let k = choose|k: int| 0 <= k < nodes.len() && within((#[trigger] nodes[k]).ptr, 8, a);
        assert(nodes[k].size >= 8);
        assert(within(nodes[k].ptr, nodes[k].size as int, a));
        assert(in_nodes(nodes, a));
    }
    lemma_reaches_kept(b, d0, u64_at(b, slot), nodes);
    lemma_data_pointed_kept(b, d0, nodes, datas, t, x0, fuel);
    assert(u64_at(d0, slot) == (if nodes.len() > 0 {
        nodes[0].ptr
    } else {
        0
    }));
    lemma_cells_copied_out(d0, slot, nodes, datas, t, x0, fuel);
    let m = prelim_drm_i915_gem_create_ext::chain_copied(d0, slot, t, x0, fuel).1;
    assert(prelim_drm_i915_gem_create_ext::copy_result(b, p, t, arg)
        == prelim_drm_i915_gem_create_ext::chain_copied(d0, slot, t, x0, fuel)) by {
        reveal(prelim_drm_i915_gem_create_ext::copy_result);
    }
    assert forall|a: u64| within(p, 16, a) implies byte_at(m, a) == byte_at(d0, a) by {
        assert(within(p, 24, a));
        lemma_outside_later(nodes, datas, p, 24, a);
    }
    lemma_mirrors_framed(d0, m, p, t, arg, 16);
}

/// The creation of a buffer object comes back and gives back.
pub proof fn lemma_create_comes_back(before: Seq<Arena>, h: ShadowView, t: Bytes, arg: u64, root: Holding)
    requires
        holding(before, h.arenas, set![root]),
        root.size == 24,
    ensures
        comes_back(Deep::GemCreateExt, h, t, arg, root.ptr),
        gives_back(Deep::GemCreateExt, before, h, t, arg, root),
{
    reveal(Deep::allocated);
    reveal(Deep::copy_result);
    reveal(Deep::freed);
    reveal(prelim_drm_i915_gem_create_ext::allocated);
    reveal(prelim_drm_i915_gem_create_ext::freed);
    let p = root.ptr;
    let x0 = u64_at(t, at(arg, 16));
    let slot = at(p, 16);
    let fuel = CHAIN_LIMIT as nat;
    if prelim_drm_i915_gem_create_ext::allocated(h, p, t, arg).0 is Ok {
        assert(set![root].contains(root));
        lemma_held_range(before, h.arenas, set![root], root);
        let h0 = ShadowView { arenas: h.arenas, bytes: with_u64(h.bytes, slot, 0) };
        lemma_with_u64(h.bytes, slot, 0);
        lemma_cells_allocated(before, set![root], h0, slot, t, x0, fuel, root);
        let nodes = cell_nodes(h.arenas, t, x0, fuel);
        let datas = cell_datas(h.arenas, t, x0, fuel);
        let h1 = prelim_drm_i915_gem_create_ext::allocated(h, p, t, arg).1;
        assert(nodes_clear_of(nodes, p, 24) && bufs_clear_of(datas, p, 24));
        lemma_clear_of_part(nodes, p, 24, slot, 8);
        assert(bufs_clear_of(datas, slot, 8)) by {
            assert forall|k: int| 0 <= k < datas.len() && (#[trigger] datas[k]).size > 0 implies clear(
                datas[k].ptr,
                datas[k].size as int,
                slot,
                8,
            ) by {
                assert(clear(datas[k].ptr, datas[k].size as int, p, 24));
            }
        }
        lemma_create_mirrored(h1.bytes, p, nodes, datas, t, arg);
        let m = prelim_drm_i915_gem_create_ext::copy_result(h1.bytes, p, t, arg).1;
        lemma_mirrors_back(t, t, arg, m, p, 16);
        let near = copied(t, arg, m, p, 16);
        lemma_cells_copied_back(near, t, at(arg, 16), m, u64_at(m, slot), nodes, datas, fuel);
        assert(prelim_drm_i915_gem_create_ext::copy_result(t, arg, m, p)
            == prelim_drm_i915_gem_create_ext::chain_copied(
            near,
            at(arg, 16),
            m,
            u64_at(m, slot),
            fuel,
        )) by {
            reveal(prelim_drm_i915_gem_create_ext::copy_result);
        }
        lemma_cells_freed(
            before,
            set![root],
            ShadowView { arenas: h1.arenas, bytes: m },
            u64_at(m, slot),
            nodes,
            datas,
            t,
            x0,
            fuel,
        );
    }
}

/// The creation of a buffer object whose driver leaves the copy of the
/// argument alone leaves the trusted memory as it was, and gives back all
/// that it allocated.
pub proof fn lemma_create_loopback(h: ShadowView, t: Bytes, arg: u64)
    requires
        sound(h.arenas),
        exec2_result(Deep::GemCreateExt, h, t, arg).0 is Ok,
    ensures
        ({
            let (ptr, shadow) = exec2_result(Deep::GemCreateExt, h, t, arg);
            let (done, back, after) = exec2_finished(
                Deep::GemCreateExt,
                t,
                arg,
                shadow,
                ptr->Ok_0,
            );
            &&& done is Ok
            &&& same_bytes(back, t)
            &&& sound(after.arenas)
            &&& same_free(after.arenas, h.arenas)
            &&& same_blocks(after.arenas, h.arenas)
        }),
{
    let kind = Deep::GemCreateExt;
    lemma_root_held(kind, h);
    lemma_create_comes_back(h.arenas, begun(kind, h), t, arg, grant(h.arenas, kind.size()));
    lemma_exec2_comes_back(kind, h, t, arg);
    lemma_exec2_gives_back(kind, h, t, arg);
}

/// Two memories in which the same chain reaches the same copies, which point
/// to the same arrays, and in which copies and arrays mirror the same
/// extensions, hold the same bytes in the copies and in the arrays.
pub proof fn lemma_create_cells_agree(
    m1: Bytes,
    m2: Bytes,
    first: u64,
    nodes: Seq<Holding>,
    datas: Seq<Holding>,
    t: Bytes,
    src: u64,
    fuel: nat,
)
    requires
        shaped(nodes, datas, t, src, fuel),
        nodes_apart(nodes),
        reaches(m1, first, nodes),
        reaches(m2, first, nodes),
        data_pointed(m1, nodes, datas, t, src),
        data_pointed(m2, nodes, datas, t, src),
        cells_mirror(m1, nodes, datas, t, src),
        cells_mirror(m2, nodes, datas, t, src),
    ensures
        forall|a: u64| in_nodes(nodes, a) || in_bufs(datas, a) ==> byte_at(m1, a) == byte_at(m2, a),
    decreases fuel,
{
    if src != 0 {
        let node = nodes[0];
        let data = datas[0];
        let rest = nodes.drop_first();
        let rest_d = datas.drop_first();
        let next1 = u64_at(m1, node.ptr);
        let next2 = u64_at(m2, node.ptr);
        lemma_later_apart(nodes);
        assert(reaches(m1, next1, rest) && reaches(m2, next2, rest));
        assert(next1 == next2) by {
            if rest.len() > 0 {
                assert(next1 == rest[0].ptr && next2 == rest[0].ptr);
            } else {
                assert(next1 == 0 && next2 == 0);
            }
        }
        lemma_create_cells_agree(m1, m2, next1, rest, rest_d, t, u64_at(t, src), (fuel - 1) as nat);
        lemma_same_number(m1, m2, node.ptr);
        lemma_mirrors_agree(m1, m2, at(node.ptr, 8), t, at(src, 8), body_len(t, src, node.size));
        lemma_mirrors_agree(m1, m2, data.ptr, t, u64_at(t, at(src, 48)), data.size as int);
        if is_param(t, src) {
            lemma_same_number(m1, m2, at(node.ptr, 48));
        }
        assert forall|a: u64| in_nodes(nodes, a) || in_bufs(datas, a) implies byte_at(m1, a)
            == byte_at(m2, a) by {
            lemma_in_later_nodes(nodes, a);
            lemma_in_later_bufs(datas, a);
        }
    }
}

/// Walking the chain of a buffer object that was already copied copies it to
/// the same image: the second copy ends as the first did and changes no
/// byte.
pub proof fn lemma_create_chain_copied_twice(
    d: Bytes,
    slot: u64,
    nodes: Seq<Holding>,
    datas: Seq<Holding>,
    t: Bytes,
    src: u64,
    fuel: nat,
)
    requires
        cells_laid(nodes, datas, slot, t, src, fuel),
        u64_at(d, slot) == (if nodes.len() > 0 {
            nodes[0].ptr
        } else {
            0
        }),
        reaches(d, u64_at(d, slot), nodes),
        data_pointed(d, nodes, datas, t, src),
    ensures
        ({
            let (r, once) = prelim_drm_i915_gem_create_ext::chain_copied(d, slot, t, src, fuel);
            let (again, twice) = prelim_drm_i915_gem_create_ext::chain_copied(
                once,
                slot,
                t,
                src,
                fuel,
            );
            again == r && same_bytes(twice, once)
        }),
{
    let first = u64_at(d, slot);
    lemma_cells_copied_out(d, slot, nodes, datas, t, src, fuel);
    let (r, once) = prelim_drm_i915_gem_create_ext::chain_copied(d, slot, t, src, fuel);
    lemma_cells_copied_out(once, slot, nodes, datas, t, src, fuel);
    let (again, twice) = prelim_drm_i915_gem_create_ext::chain_copied(once, slot, t, src, fuel);
    lemma_create_cells_agree(twice, once, first, nodes, datas, t, src, fuel);
    assert(r == Ok::<(), Error>(()) && again == Ok::<(), Error>(())) by {
        assert(r->Ok_0 == () && again->Ok_0 == ());
    }
}

/// The copy from copies that mirror the extensions of the source ends well,
/// wherever it copies to.
pub proof fn lemma_create_cells_copied_ok(
    d: Bytes,
    slot: u64,
    m: Bytes,
    first: u64,
    nodes: Seq<Holding>,
    datas: Seq<Holding>,
    t: Bytes,
    src: u64,
    fuel: nat,
)
    requires
        shaped(nodes, datas, t, src, fuel),
        nodes_apart(nodes),
        reaches(m, first, nodes),
        cells_mirror(m, nodes, datas, t, src),
    ensures
        prelim_drm_i915_gem_create_ext::chain_copied(d, slot, m, first, fuel).0 is Ok,
    decreases fuel,
{
    if src != 0 {
        lemma_later_apart(nodes);
        lemma_cell_reads(m, first, t, src, nodes[0].size);
        lemma_node_copied(d, slot, m, first);
        let d1 = prelim_drm_i915_gem_create_ext::node_copied(d, slot, m, first).1;
        lemma_create_cells_copied_ok(
            d1,
            u64_at(d1, slot),
            m,
            u64_at(m, first),
            nodes.drop_first(),
            datas.drop_first(),
            t,
            u64_at(t, src),
            (fuel - 1) as nat,
        );
    }
}

/// Whether the copies `nodes2` with the arrays `datas2` in `m2` are, one by
/// one, what the copies `nodes1` with the arrays `datas1` in `m1` are: as
/// many and as long, with the same bytes in every copy but for the address
/// of the next extension and the address of the array, and with the same
/// bytes in every array.
pub open spec fn alike(
    m2: Bytes,
    nodes2: Seq<Holding>,
    datas2: Seq<Holding>,
    m1: Bytes,
    nodes1: Seq<Holding>,
    datas1: Seq<Holding>,
) -> bool {
    &&& nodes2.len() == nodes1.len()
    &&& datas2.len() == datas1.len()
    &&& datas1.len() == nodes1.len()
    &&& forall|k: int|
        0 <= k < nodes1.len() ==> {
            &&& (#[trigger] nodes2[k]).size == nodes1[k].size
            &&& datas2[k].size == datas1[k].size
            &&& mirrors(
                m2,
                at(nodes2[k].ptr, 8),
                m1,
                at(nodes1[k].ptr, 8),
                body_len(m1, nodes1[k].ptr, nodes1[k].size),
            )
            &&& mirrors(m2, datas2[k].ptr, m1, datas1[k].ptr, datas1[k].size as int)
        }
}

/// Copies that mirror a chain which itself is a copy of a chain are, one by
/// one, what the copies of the first chain are.
pub proof fn lemma_copies_alike(
    m2: Bytes,
    nodes2: Seq<Holding>,
    datas2: Seq<Holding>,
    m1: Bytes,
    first1: u64,
    nodes1: Seq<Holding>,
    datas1: Seq<Holding>,
    t: Bytes,
    src: u64,
    fuel: nat,
)
    requires
        nodes_apart(nodes1),
        shaped(nodes1, datas1, t, src, fuel),
        reaches(m1, first1, nodes1),
        data_pointed(m1, nodes1, datas1, t, src),
        cells_mirror(m1, nodes1, datas1, t, src),
        shaped(nodes2, datas2, m1, first1, fuel),
        cells_mirror(m2, nodes2, datas2, m1, first1),
    ensures
        alike(m2, nodes2, datas2, m1, nodes1, datas1),
    decreases fuel,
{
    if src == 0 {
    } else {
        lemma_later_apart(nodes1);
        let size = nodes1[0].size;
        assert(first1 == nodes1[0].ptr);
        lemma_cell_reads(m1, first1, t, src, size);
        assert(is_param(m1, first1) == is_param(t, src));
        if !is_param(t, src) {
            lemma_mirrors_none(m2, datas2[0].ptr, m1, datas1[0].ptr);
        }
        lemma_copies_alike(
            m2,
            nodes2.drop_first(),
            datas2.drop_first(),
            m1,
            u64_at(m1, first1),
            nodes1.drop_first(),
            datas1.drop_first(),
            t,
            u64_at(t, src),
            (fuel - 1) as nat,
        );
        let (r2, d2, r1, d1) = (
            nodes2.drop_first(),
            datas2.drop_first(),
            nodes1.drop_first(),
            datas1.drop_first(),
        );
        assert forall|k: int| 0 <= k < nodes1.len() implies {
            &&& (#[trigger] nodes2[k]).size == nodes1[k].size
            &&& datas2[k].size == datas1[k].size
            &&& mirrors(
                m2,
                at(nodes2[k].ptr, 8),
                m1,
                at(nodes1[k].ptr, 8),
                body_len(m1, nodes1[k].ptr, nodes1[k].size),
            )
            &&& mirrors(m2, datas2[k].ptr, m1, datas1[k].ptr, datas1[k].size as int)
        } by {
            if k > 0 {
                assert(nodes2[k] == r2[k - 1] && datas2[k] == d2[k - 1]);
                assert(nodes1[k] == r1[k - 1] && datas1[k] == d1[k - 1]);
            }
        }
    }
}

/// Walking a chain that is itself the copy of a chain and mirroring it into
/// new blocks gives copies that are, one by one, what the copies of the
/// first chain are, but for the addresses of the next extension and of the
/// array; the walk ends well, and no byte changes outside the new pointer
/// and the new blocks, which lie clear of every block that the call held.
pub proof fn lemma_create_chain_reserialised(
    before: Seq<Arena>,
    blocks: Set<Holding>,
    arenas: Seq<Arena>,
    m1: Bytes,
    first1: u64,
    nodes1: Seq<Holding>,
    datas1: Seq<Holding>,
    t: Bytes,
    src: u64,
    slot: u64,
    home: Holding,
    fuel: nat,
)
    requires
        nodes_apart(nodes1),
        shaped(nodes1, datas1, t, src, fuel),
        reaches(m1, first1, nodes1),
        data_pointed(m1, nodes1, datas1, t, src),
        cells_mirror(m1, nodes1, datas1, t, src),
        holding(before, arenas, blocks),
        blocks.contains(home),
        home.ptr <= slot,
        slot + 8 <= home.ptr + home.size,
        prelim_drm_i915_gem_create_ext::chain_allocated(
            ShadowView { arenas, bytes: with_u64(m1, slot, 0) },
            slot,
            m1,
            first1,
            fuel,
        ).0 is Ok,
    ensures
        ({
            let h2 = prelim_drm_i915_gem_create_ext::chain_allocated(
                ShadowView { arenas, bytes: with_u64(m1, slot, 0) },
                slot,
                m1,
                first1,
                fuel,
            ).1;
            let (r, m2) = prelim_drm_i915_gem_create_ext::chain_copied(
                h2.bytes,
                slot,
                m1,
                first1,
                fuel,
            );
            let nodes2 = cell_nodes(arenas, m1, first1, fuel);
            let datas2 = cell_datas(arenas, m1, first1, fuel);
            &&& r is Ok
            &&& alike(m2, nodes2, datas2, m1, nodes1, datas1)
            &&& forall|b: Holding| #[trigger]
                blocks.contains(b) ==> nodes_clear_of(nodes2, b.ptr, b.size as int)
                    && bufs_clear_of(datas2, b.ptr, b.size as int)
            &&& forall|a: u64|
                !within(slot, 8, a) && !in_nodes(nodes2, a) && !in_bufs(datas2, a) ==> byte_at(
                    m2,
                    a,
                ) == byte_at(m1, a)
        }),
{
    let h = ShadowView { arenas, bytes: with_u64(m1, slot, 0) };
    lemma_with_u64(m1, slot, 0);
    lemma_held_range(before, arenas, blocks, home);
    lemma_cells_allocated(before, blocks, h, slot, m1, first1, fuel, home);
    let h2 = prelim_drm_i915_gem_create_ext::chain_allocated(h, slot, m1, first1, fuel).1;
    let nodes2 = cell_nodes(arenas, m1, first1, fuel);
    let datas2 = cell_datas(arenas, m1, first1, fuel);
    assert(nodes_clear_of(nodes2, home.ptr, home.size as int) && bufs_clear_of(
        datas2,
        home.ptr,
        home.size as int,
    ));
    lemma_clear_of_part(nodes2, home.ptr, home.size as int, slot, 8);
    assert(bufs_clear_of(datas2, slot, 8)) by {
        assert forall|k: int| 0 <= k < datas2.len() && (#[trigger] datas2[k]).size > 0 implies clear(
            datas2[k].ptr,
            datas2[k].size as int,
            slot,
            8,
        ) by {
            assert(clear(datas2[k].ptr, datas2[k].size as int, home.ptr, home.size as int));
        }
    }
    lemma_linked_reaches(h2.bytes, slot, nodes2);
    assert(u64_at(h2.bytes, slot) == (if nodes2.len() > 0 {
        nodes2[0].ptr
    } else {
        0
    }));
    lemma_cells_copied_out(h2.bytes, slot, nodes2, datas2, m1, first1, fuel);
    let m2 = prelim_drm_i915_gem_create_ext::chain_copied(h2.bytes, slot, m1, first1, fuel).1;
    lemma_copies_alike(m2, nodes2, datas2, m1, first1, nodes1, datas1, t, src, fuel);
}

} // verus!
