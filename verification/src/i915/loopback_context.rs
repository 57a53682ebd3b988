//! Creation of a context with a driver that leaves the copy of the argument
//! as it finds it.
//!
//! Every extension of the argument sets a parameter. Its copy holds a block
//! for the extension and one for a value that has a size. Where the
//! parameter configures engines, the value holds a nested parameter, whose
//! own value has a block too and begins a chain of engine extensions, each
//! with its block.

use vstd::prelude::*;
use crate::buddy_alloc::Arena;
use crate::error::Error;
use crate::holdings::{
    Holding, grant, holding, lemma_buffer_joins, lemma_buffer_leaves, lemma_held_owned,
    lemma_held_range,
};
use crate::i915::chain::{CHAIN_LIMIT, PRELIM_I915_USER_EXT_MASK, i915_user_extension};
use crate::i915::loopback::{
    begun, comes_back, gives_back, lemma_exec2_comes_back, lemma_exec2_gives_back,
    lemma_plain_param_comes_back, lemma_root_held,
};
use crate::i915::{Deep, Direction, exec2_finished, exec2_result};
use crate::i915::context::{
    I915_CONTEXT_PARAM_ENGINES, Value, drm_i915_gem_context_create_ext,
    drm_i915_gem_context_create_ext_setparam, drm_i915_gem_context_param,
    i915_context_param_engines,
};
use crate::i915::loopback_chains::{
    bodies, chain_grants, chains_alike, in_bodies, in_links, in_nodes, lemma_bodies_kept,
    lemma_bodies_sized, lemma_chains_alike,
    lemma_chain_agrees, lemma_chain_copied_ok, lemma_chain_freed,
    lemma_chain_allocated, lemma_chain_copied_back, lemma_chain_copied_out, lemma_clear_of_part, lemma_linked_reaches, lemma_reaches_kept, matches_source, nodes_apart,
    nodes_clear_of, reaches, reads_body, sizes_hold_header,
};
use crate::memory::{allocation, released, same_blocks, same_free, sound};
use crate::shadow::{ShadowView, payload_copied};
use crate::space::{
    Bytes, at, byte_at, clear, copied, lemma_copied_byte, lemma_kept_u64, lemma_mirrors_agree,
    lemma_mirrors_back, lemma_mirrors_byte, lemma_mirrors_copied, lemma_same_number, lemma_mirrors_u64, lemma_offset, lemma_u64_bytes, same_bytes,
    lemma_mirrors_join, lemma_mirrors_kept, lemma_mirrors_kept_u64, lemma_mirrors_none,
    lemma_mirrors_framed, lemma_mirrors_part, lemma_mirrors_u16,
    lemma_mirrors_u32, lemma_put_kept_u64, lemma_same_u64, lemma_with_u64, mirrors, offset, u32_at, u64_at, with_u64, within,
};

verus! {

/// The size of an engine extension is read off its body, and holds a header.
pub proof fn lemma_engines_sizer()
    ensures
        sizes_hold_header(i915_context_param_engines::sizer()),
        reads_body(i915_context_param_engines::sizer()),
{
    let size_of = i915_context_param_engines::sizer();
    assert forall|m: Bytes, v: u64, t: Bytes, x: u64, size: usize|
        #![trigger size_of(m, v), size_of(t, x), mirrors(m, at(v, 8), t, at(x, 8), size - 8)]
        size_of(t, x) == Ok::<usize, Error>(size) && mirrors(
            m,
            at(v, 8),
            t,
            at(x, 8),
            size - 8,
        ) implies size_of(m, v) == Ok::<usize, Error>(size) by {
        assert(size >= 48);
        lemma_mirrors_part(m, at(v, 8), t, at(x, 8), size - 8, 0, 4);
        assert(at(at(v, 8), 0) == at(v, 8) && at(at(x, 8), 0) == at(x, 8));
        lemma_mirrors_u32(m, at(v, 8), t, at(x, 8));
        lemma_mirrors_part(m, at(v, 8), t, at(x, 8), size - 8, 26, 2);
        assert(at(at(v, 8), 26) == at(v, 34) && at(at(x, 8), 26) == at(x, 34));
        lemma_mirrors_u16(m, at(v, 34), t, at(x, 34));
        lemma_mirrors_part(m, at(v, 8), t, at(x, 8), size - 8, 28, 2);
        assert(at(at(v, 8), 28) == at(v, 36) && at(at(x, 8), 28) == at(x, 36));
        lemma_mirrors_u16(m, at(v, 36), t, at(x, 36));
        lemma_mirrors_part(m, at(v, 8), t, at(x, 8), size - 8, 30, 2);
        assert(at(at(v, 8), 30) == at(v, 38) && at(at(x, 8), 30) == at(x, 38));
        lemma_mirrors_u16(m, at(v, 38), t, at(x, 38));
    }
}

/// Whether the pointer at `slot` of `m` begins the chain of the blocks
/// `nodes`.
pub open spec fn heads(m: Bytes, slot: u64, nodes: Seq<Holding>) -> bool {
    &&& u64_at(m, slot) == (if nodes.len() > 0 {
        nodes[0].ptr
    } else {
        0
    })
    &&& reaches(m, u64_at(m, slot), nodes)
}

/// What the alloc phase does for a nested parameter that configures
/// engines, for a copy that is a block that the call holds: the call holds a
/// new block for the value and one for every engine extension, clear of what
/// it held and of each other; the copy points to its value, which begins the
/// chain of the engine extensions; and no byte changes outside that pointer
/// and the new blocks.
pub proof fn lemma_param_allocated(
    before: Seq<Arena>,
    blocks: Set<Holding>,
    h: ShadowView,
    t: Bytes,
    csrc: u64,
    home: Holding,
)
    requires
        holding(before, h.arenas, blocks),
        blocks.contains(home),
        home.size >= 24,
        u32_at(t, at(csrc, 4)) >= 8,
        drm_i915_gem_context_param::allocated_with(h, home.ptr, t, csrc, Value::Engines).0 is Ok,
    ensures
        ({
            let size = u32_at(t, at(csrc, 4)) as usize;
            let inner = grant(h.arenas, size);
            let first = u64_at(t, u64_at(t, at(csrc, 16)));
            let engines = chain_grants(
                i915_context_param_engines::sizer(),
                allocation(h.arenas, size).1,
                t,
                first,
                CHAIN_LIMIT as nat,
            );
            let after = drm_i915_gem_context_param::allocated_with(
                h,
                home.ptr,
                t,
                csrc,
                Value::Engines,
            ).1;
            &&& holding(before, after.arenas, blocks.insert(inner).union(engines.to_set()))
            &&& !blocks.contains(inner)
            &&& forall|k: int|
                0 <= k < engines.len() ==> !blocks.insert(inner).contains(#[trigger] engines[k])
            &&& inner.size == size
            &&& inner.ptr > 0
            &&& inner.ptr + inner.size <= usize::MAX
            &&& forall|b: Holding| #[trigger]
                blocks.contains(b) ==> clear(inner.ptr, inner.size as int, b.ptr, b.size as int)
                    && nodes_clear_of(engines, b.ptr, b.size as int)
            &&& nodes_clear_of(engines, inner.ptr, inner.size as int)
            &&& nodes_apart(engines)
            &&& matches_source(
                i915_context_param_engines::sizer(),
                engines,
                t,
                first,
                CHAIN_LIMIT as nat,
            )
            &&& u64_at(after.bytes, at(home.ptr, 16)) == inner.ptr
            &&& heads(after.bytes, inner.ptr, engines)
            &&& forall|a: u64|
                !within(at(home.ptr, 16), 8, a) && !within(inner.ptr, inner.size as int, a)
                    && !in_nodes(engines, a) ==> byte_at(after.bytes, a) == byte_at(h.bytes, a)
        }),
{
    reveal(drm_i915_gem_context_param::allocated_with);
    reveal(i915_context_param_engines::allocated);
    let size_of = i915_context_param_engines::sizer();
    let size = u32_at(t, at(csrc, 4)) as usize;
    let inner = grant(h.arenas, size);
    let first = u64_at(t, u64_at(t, at(csrc, 16)));
    let a1 = allocation(h.arenas, size).1;
    let engines = chain_grants(size_of, a1, t, first, CHAIN_LIMIT as nat);
    let field = at(home.ptr, 16);
    let b1 = with_u64(h.bytes, field, inner.ptr);
    let b2 = with_u64(b1, inner.ptr, 0);
    lemma_engines_sizer();
    lemma_held_range(before, h.arenas, blocks, home);
    lemma_buffer_joins(before, h.arenas, blocks, size);
    let blocks1 = blocks.insert(inner);
    lemma_held_range(before, a1, blocks1, inner);
    lemma_with_u64(h.bytes, field, inner.ptr);
    lemma_with_u64(b1, inner.ptr, 0);
    assert(clear(inner.ptr, size as int, home.ptr, home.size as int));
    let h2 = ShadowView { arenas: a1, bytes: b2 };
    assert(blocks1.contains(inner));
    lemma_chain_allocated(size_of, before, blocks1, h2, inner.ptr, t, first, CHAIN_LIMIT as nat, inner);
    let after = i915_context_param_engines::chain_allocated(
        h2,
        inner.ptr,
        t,
        first,
        CHAIN_LIMIT as nat,
    ).1;
    lemma_linked_reaches(after.bytes, inner.ptr, engines);
    assert(blocks1.contains(home));
    assert(nodes_clear_of(engines, home.ptr, home.size as int));
    assert forall|a: u64| within(field, 8, a) implies byte_at(after.bytes, a) == byte_at(b1, a) by {
        if in_nodes(engines, a) {
            let k = choose|k: int|
                0 <= k < engines.len() && within(
                    (#[trigger] engines[k]).ptr,
                    engines[k].size as int,
                    a,
                );
            assert(clear(engines[k].ptr, engines[k].size as int, home.ptr, home.size as int));
        }
    }
    lemma_same_u64(after.bytes, b1, field);
    assert forall|b: Holding| #[trigger] blocks.contains(b) implies clear(
        inner.ptr,
        inner.size as int,
        b.ptr,
        b.size as int,
    ) && nodes_clear_of(engines, b.ptr, b.size as int) by {
        assert(blocks1.contains(b));
    }
}

/// The size of the value of the parameter that the extension at `src` sets.
pub open spec fn value_size(t: Bytes, src: u64) -> usize {
    u32_at(t, at(src, 36)) as usize
}

/// Whether the extension at `src` sets the parameter that configures
/// engines, with a value that has a size.
pub open spec fn configures_engines(t: Bytes, src: u64) -> bool {
    value_size(t, src) > 0 && u64_at(t, at(src, 40)) == I915_CONTEXT_PARAM_ENGINES
}

/// The address of the value of the parameter that the extension at `src`
/// sets: for engines, that of the nested parameter.
pub open spec fn nested(t: Bytes, src: u64) -> u64 {
    u64_at(t, at(src, 48))
}

/// The size of the value of the nested parameter of the extension at `src`.
pub open spec fn engines_size(t: Bytes, src: u64) -> usize {
    u32_at(t, at(nested(t, src), 4)) as usize
}

/// The address of the value of the nested parameter of the extension at
/// `src`.
pub open spec fn engines_at(t: Bytes, src: u64) -> u64 {
    u64_at(t, at(nested(t, src), 16))
}

/// The address of the first engine extension of the extension at `src`.
pub open spec fn first_engine(t: Bytes, src: u64) -> u64 {
    u64_at(t, engines_at(t, src))
}

/// Whether the eight bytes from `a` and the eight bytes from `b` share no
/// byte.
pub open spec fn apart8(a: u64, b: u64) -> bool {
    offset(a, b) >= 8 && offset(b, a) >= 8
}

/// Whether the extension at `src`, where it configures engines, has a value
/// that holds a nested parameter, whose value holds the address of a chain,
/// and the pointers of the three do not lie across each other.
pub open spec fn well_laid(t: Bytes, src: u64) -> bool {
    configures_engines(t, src) ==> {
        &&& value_size(t, src) >= 24
        &&& engines_size(t, src) >= 8
        &&& apart8(at(src, 48), at(nested(t, src), 16))
        &&& apart8(at(nested(t, src), 16), engines_at(t, src))
    }
}

/// The block that stands for no buffer.
pub open spec fn no_block() -> Holding {
    Holding { ptr: 0, size: 0, len: 0 }
}

/// The blocks of the copy of one extension: that of the extension itself,
/// that of the value of its parameter, that of the value of the nested
/// parameter, and those of the engine extensions.
pub struct Cell {
    /// The copy of the extension.
    pub node: Holding,
    /// The value of the parameter, or no block.
    pub outer: Holding,
    /// The value of the nested parameter, or no block.
    pub inner: Holding,
    /// The copies of the engine extensions.
    pub engines: Seq<Holding>,
}

impl Cell {
    /// Whether `b` is one of the blocks.
    pub open spec fn has(self, b: Holding) -> bool {
        ||| b == self.node
        ||| self.outer.size > 0 && b == self.outer
        ||| self.inner.size > 0 && b == self.inner
        ||| self.engines.contains(b)
    }

    /// The blocks, as a set.
    pub open spec fn blocks(self) -> Set<Holding> {
        Set::new(|b: Holding| self.has(b))
    }

    /// Whether `a` is a byte of one of the blocks.
    pub open spec fn holds(self, a: u64) -> bool {
        ||| within(self.node.ptr, self.node.size as int, a)
        ||| within(self.outer.ptr, self.outer.size as int, a)
        ||| within(self.inner.ptr, self.inner.size as int, a)
        ||| in_nodes(self.engines, a)
    }

    /// Whether every block lies clear of the `len` bytes from `base`.
    pub open spec fn clear_of(self, base: u64, len: int) -> bool {
        &&& clear(self.node.ptr, self.node.size as int, base, len)
        &&& self.outer.size > 0 ==> clear(self.outer.ptr, self.outer.size as int, base, len)
        &&& self.inner.size > 0 ==> clear(self.inner.ptr, self.inner.size as int, base, len)
        &&& nodes_clear_of(self.engines, base, len)
    }

    /// Whether the blocks are as long as the extension at `src` of the
    /// source asks, which is laid out well.
    pub open spec fn shaped(self, t: Bytes, src: u64) -> bool {
        &&& u32_at(t, at(src, 8)) & PRELIM_I915_USER_EXT_MASK == 0
        &&& well_laid(t, src)
        &&& self.node.size == 56
        &&& self.outer.size == value_size(t, src)
        &&& self.outer.size == 0 ==> self.outer.ptr == 0
        &&& if configures_engines(t, src) {
            &&& self.inner.size == engines_size(t, src)
            &&& matches_source(
                i915_context_param_engines::sizer(),
                self.engines,
                t,
                first_engine(t, src),
                CHAIN_LIMIT as nat,
            )
        } else {
            self.inner.size == 0 && self.engines.len() == 0
        }
    }

    /// Whether the blocks begin after address zero, do not go round the end
    /// of the address space, and lie clear of each other.
    pub open spec fn apart(self) -> bool {
        &&& self.node.ptr > 0
        &&& self.node.ptr + self.node.size <= usize::MAX
        &&& self.outer.size > 0 ==> {
            &&& self.outer.ptr > 0
            &&& self.outer.ptr + self.outer.size <= usize::MAX
            &&& clear(
                self.outer.ptr,
                self.outer.size as int,
                self.node.ptr,
                self.node.size as int,
            )
        }
        &&& self.inner.size > 0 ==> {
            &&& self.inner.ptr > 0
            &&& self.inner.ptr + self.inner.size <= usize::MAX
            &&& clear(
                self.inner.ptr,
                self.inner.size as int,
                self.node.ptr,
                self.node.size as int,
            )
            &&& clear(
                self.inner.ptr,
                self.inner.size as int,
                self.outer.ptr,
                self.outer.size as int,
            )
        }
        &&& nodes_apart(self.engines)
        &&& nodes_clear_of(self.engines, self.node.ptr, self.node.size as int)
        &&& nodes_clear_of(self.engines, self.outer.ptr, self.outer.size as int)
        &&& nodes_clear_of(self.engines, self.inner.ptr, self.inner.size as int)
    }

    /// Whether the copy in `m` points to its value, and where the extension
    /// at `src` configures engines, the value to the value of the nested
    /// parameter, which begins the chain of the engine extensions.
    pub open spec fn built(self, m: Bytes, t: Bytes, src: u64) -> bool {
        &&& u64_at(m, at(self.node.ptr, 48)) == self.outer.ptr
        &&& configures_engines(t, src) ==> {
            &&& u64_at(m, at(self.outer.ptr, 16)) == self.inner.ptr
            &&& heads(m, self.inner.ptr, self.engines)
        }
    }
}

/// The blocks that the copy of the extension at `src` is given by the
/// arenas `now`.
pub open spec fn cell_of(now: Seq<Arena>, t: Bytes, src: u64) -> Cell {
    let a1 = allocation(now, 56).1;
    let a2 = allocation(a1, value_size(t, src)).1;
    Cell {
        node: grant(now, 56),
        outer: if value_size(t, src) > 0 {
            grant(a1, value_size(t, src))
        } else {
            no_block()
        },
        inner: if configures_engines(t, src) {
            grant(a2, engines_size(t, src))
        } else {
            no_block()
        },
        engines: if configures_engines(t, src) {
            chain_grants(
                i915_context_param_engines::sizer(),
                allocation(a2, engines_size(t, src)).1,
                t,
                first_engine(t, src),
                CHAIN_LIMIT as nat,
            )
        } else {
            Seq::empty()
        },
    }
}

/// What the alloc phase does for one extension, for a pointer that lies in a
/// block that the call holds: the call holds the new blocks of the copy,
/// clear of what it held and of each other; the pointer points to the copy,
/// which ends the chain and is built; and no byte changes outside the
/// pointer and the new blocks.
pub proof fn lemma_cell_allocated(
    before: Seq<Arena>,
    blocks: Set<Holding>,
    h: ShadowView,
    slot: u64,
    t: Bytes,
    src: u64,
    home: Holding,
)
    requires
        holding(before, h.arenas, blocks),
        blocks.contains(home),
        home.ptr <= slot,
        slot + 8 <= home.ptr + home.size,
        well_laid(t, src),
        drm_i915_gem_context_create_ext::node_allocated(h, slot, t, src).0 is Ok,
    ensures
        ({
            let c = cell_of(h.arenas, t, src);
            let after = drm_i915_gem_context_create_ext::node_allocated(h, slot, t, src).1;
            &&& holding(before, after.arenas, blocks.union(c.blocks()))
            &&& forall|b: Holding| c.has(b) ==> !blocks.contains(b)
            &&& forall|b: Holding| #[trigger] blocks.contains(b) ==> c.clear_of(b.ptr, b.size as int)
            &&& c.shaped(t, src)
            &&& c.apart()
            &&& c.built(after.bytes, t, src)
            &&& u64_at(after.bytes, slot) == c.node.ptr
            &&& u64_at(after.bytes, c.node.ptr) == 0
            &&& forall|a: u64|
                !within(slot, 8, a) && !c.holds(a) ==> byte_at(after.bytes, a) == byte_at(
                    h.bytes,
                    a,
                )
        }),
{
    reveal(drm_i915_gem_context_create_ext_setparam::allocated);
    let c = cell_of(h.arenas, t, src);
    let after = drm_i915_gem_context_create_ext::node_allocated(h, slot, t, src).1;
    let g = c.node;
    let a1 = allocation(h.arenas, 56).1;
    let b1 = with_u64(h.bytes, slot, g.ptr);
    let b2 = with_u64(b1, g.ptr, 0);
    let field = at(g.ptr, 48);
    let size = value_size(t, src);
    lemma_held_range(before, h.arenas, blocks, home);
    lemma_buffer_joins(before, h.arenas, blocks, 56);
    let blocks1 = blocks.insert(g);
    assert(blocks1.contains(g));
    lemma_held_range(before, a1, blocks1, g);
    lemma_with_u64(h.bytes, slot, g.ptr);
    lemma_with_u64(b1, g.ptr, 0);
    assert(clear(g.ptr, 56, home.ptr, home.size as int));
    lemma_put_kept_u64(b1, g.ptr, 0, slot);
    if size > 0 {
        let outer = c.outer;
        let a2 = allocation(a1, size).1;
        let b3 = with_u64(b2, field, outer.ptr);
        lemma_buffer_joins(before, a1, blocks1, size);
        let blocks2 = blocks1.insert(outer);
        assert(blocks2.contains(outer));
        lemma_held_range(before, a2, blocks2, outer);
        lemma_with_u64(b2, field, outer.ptr);
        lemma_put_kept_u64(b2, field, outer.ptr, slot);
        lemma_put_kept_u64(b2, field, outer.ptr, g.ptr);
        if configures_engines(t, src) {
            let h3 = ShadowView { arenas: a2, bytes: b3 };
            lemma_param_allocated(before, blocks2, h3, t, nested(t, src), outer);
            let inner = c.inner;
            let engines = c.engines;
            assert(blocks2.contains(g) && blocks2.contains(home));
            assert(nodes_clear_of(engines, g.ptr, g.size as int));
            assert(nodes_clear_of(engines, home.ptr, home.size as int));
            assert(clear(inner.ptr, inner.size as int, g.ptr, g.size as int));
            assert(clear(inner.ptr, inner.size as int, home.ptr, home.size as int));
            assert forall|a: u64|
                within(field, 8, a) || within(slot, 8, a) || within(g.ptr, 8, a) implies byte_at(
                after.bytes,
                a,
            ) == byte_at(b3, a) by {
                if in_nodes(engines, a) {
                    let k = choose|k: int|
                        0 <= k < engines.len() && within(
                            (#[trigger] engines[k]).ptr,
                            engines[k].size as int,
                            a,
                        );
                    assert(clear(engines[k].ptr, engines[k].size as int, g.ptr, g.size as int));
                    assert(clear(
                        engines[k].ptr,
                        engines[k].size as int,
                        home.ptr,
                        home.size as int,
                    ));
                }
            }
            lemma_same_u64(after.bytes, b3, field);
            lemma_same_u64(after.bytes, b3, slot);
            lemma_same_u64(after.bytes, b3, g.ptr);
            assert(blocks.union(c.blocks()) =~= blocks2.insert(inner).union(engines.to_set()));
            assert forall|b: Holding| #[trigger] blocks.contains(b) implies c.clear_of(
                b.ptr,
                b.size as int,
            ) by {
                assert(blocks1.contains(b) && blocks2.contains(b));
            }
            assert forall|b: Holding| c.has(b) implies !blocks.contains(b) by {
                if engines.contains(b) {
                    let k = choose|k: int| 0 <= k < engines.len() && engines[k] == b;
                    assert(!blocks2.insert(inner).contains(engines[k]));
                }
            }
        } else {
            assert(blocks.union(c.blocks()) =~= blocks2);
            assert forall|b: Holding| #[trigger] blocks.contains(b) implies c.clear_of(
                b.ptr,
                b.size as int,
            ) by {
                assert(blocks1.contains(b));
            }
        }
    } else {
        lemma_with_u64(b2, field, 0);
        lemma_put_kept_u64(b2, field, 0, slot);
        lemma_put_kept_u64(b2, field, 0, g.ptr);
        assert(blocks.union(c.blocks()) =~= blocks1);
    }
}

impl Cell {
    /// Whether the copy in `m` holds what the extension at `src` holds,
    /// but for the pointers.
    pub open spec fn filled(self, m: Bytes, t: Bytes, src: u64) -> bool {
        &&& mirrors(m, at(self.node.ptr, 8), t, at(src, 8), 40)
        &&& if configures_engines(t, src) {
            &&& mirrors(m, self.outer.ptr, t, nested(t, src), 16)
            &&& mirrors(
                m,
                at(self.outer.ptr, 24),
                t,
                at(nested(t, src), 24),
                self.outer.size - 24,
            )
            &&& mirrors(
                m,
                at(self.inner.ptr, 8),
                t,
                at(engines_at(t, src), 8),
                self.inner.size - 8,
            )
            &&& bodies(m, self.engines, t, first_engine(t, src))
        } else {
            mirrors(m, self.outer.ptr, t, nested(t, src), self.outer.size as int)
        }
    }
}

/// A byte of a copy is a byte of one of its blocks.
pub proof fn lemma_holds_block(c: Cell, a: u64) -> (b: Holding)
    requires
        c.holds(a),
    ensures
        c.has(b),
        within(b.ptr, b.size as int, a),
{
    if within(c.node.ptr, c.node.size as int, a) {
        c.node
    } else if within(c.outer.ptr, c.outer.size as int, a) {
        c.outer
    } else if within(c.inner.ptr, c.inner.size as int, a) {
        c.inner
    } else {
        let k = choose|k: int|
            0 <= k < c.engines.len() && within(
                (#[trigger] c.engines[k]).ptr,
                c.engines[k].size as int,
                a,
            );
        c.engines[k]
    }
}

/// A copy that is built, or built and filled, stays so in a memory that
/// holds the same bytes in its blocks, but for the place of the copy in its
/// chain.
pub proof fn lemma_cell_kept(c: Cell, m: Bytes, n: Bytes, t: Bytes, src: u64, full: bool)
    requires
        c.shaped(t, src),
        c.apart(),
        c.built(m, t, src),
        full ==> c.filled(m, t, src),
        forall|a: u64| c.holds(a) && !within(c.node.ptr, 8, a) ==> byte_at(n, a) == byte_at(m, a),
    ensures
        c.built(n, t, src),
        full ==> c.filled(n, t, src),
{
    lemma_same_u64(n, m, at(c.node.ptr, 48));
    if full {
        lemma_mirrors_framed(m, n, at(c.node.ptr, 8), t, at(src, 8), 40);
    }
    if configures_engines(t, src) {
        let engines = c.engines;
        lemma_same_u64(n, m, at(c.outer.ptr, 16));
        lemma_same_u64(n, m, c.inner.ptr);
        assert forall|a: u64| in_nodes(engines, a) implies byte_at(n, a) == byte_at(m, a) by {
            let k = choose|k: int|
                0 <= k < engines.len() && within(
                    (#[trigger] engines[k]).ptr,
                    engines[k].size as int,
                    a,
                );
            assert(clear(engines[k].ptr, engines[k].size as int, c.node.ptr, c.node.size as int));
        }
        assert forall|a: u64| in_links(engines, a) implies byte_at(n, a) == byte_at(m, a) by {
            let k = choose|k: int|
                0 <= k < engines.len() && within((#[trigger] engines[k]).ptr, 8, a);
            assert(engines[k].size >= 8);
            assert(within(engines[k].ptr, engines[k].size as int, a));
            assert(in_nodes(engines, a));
        }
        lemma_reaches_kept(m, n, u64_at(m, c.inner.ptr), engines);
        if full {
            lemma_mirrors_framed(m, n, c.outer.ptr, t, nested(t, src), 16);
            lemma_mirrors_framed(
                m,
                n,
                at(c.outer.ptr, 24),
                t,
                at(nested(t, src), 24),
                c.outer.size - 24,
            );
            lemma_mirrors_framed(
                m,
                n,
                at(c.inner.ptr, 8),
                t,
                at(engines_at(t, src), 8),
                c.inner.size - 8,
            );
            assert forall|a: u64| in_bodies(engines, a) implies byte_at(n, a) == byte_at(m, a) by {
                let k = choose|k: int|
                    0 <= k < engines.len() && within(
                        (#[trigger] engines[k]).ptr,
                        engines[k].size as int,
                        a,
                    ) && !within(engines[k].ptr, 8, a);
                assert(in_nodes(engines, a));
            }
            lemma_bodies_kept(m, n, engines, t, first_engine(t, src));
        }
    } else if full {
        lemma_mirrors_framed(m, n, c.outer.ptr, t, nested(t, src), c.outer.size as int);
    }
}

/// Whether `a` is a byte of one of the copies `cells`.
pub open spec fn in_cells(cells: Seq<Cell>, a: u64) -> bool {
    exists|k: int| 0 <= k < cells.len() && (#[trigger] cells[k]).holds(a)
}

/// The blocks of the copies `cells`.
pub open spec fn cells_set(cells: Seq<Cell>) -> Set<Holding> {
    Set::new(|b: Holding| exists|k: int| 0 <= k < cells.len() && (#[trigger] cells[k]).has(b))
}

/// Whether no two of the copies `cells` share a byte.
pub open spec fn cells_disjoint(cells: Seq<Cell>) -> bool
    decreases cells.len(),
{
    cells.len() == 0 || ((forall|a: u64| cells[0].holds(a) ==> !in_cells(cells.drop_first(), a))
        && cells_disjoint(cells.drop_first()))
}

/// Whether the copies `cells` are those of the extensions of the chain of
/// the source from `src` on, which ends within `fuel` extensions: the chain
/// that begins with the extension at `first` in `m` is theirs, and each is
/// shaped after its extension, built, and with `full` filled.
pub open spec fn cells_hold(
    m: Bytes,
    first: u64,
    cells: Seq<Cell>,
    t: Bytes,
    src: u64,
    fuel: nat,
    full: bool,
) -> bool
    decreases fuel,
{
    if src == 0 {
        cells.len() == 0 && first == 0
    } else {
        &&& fuel > 0
        &&& cells.len() > 0
        &&& first == cells[0].node.ptr
        &&& cells[0].shaped(t, src)
        &&& cells[0].apart()
        &&& cells[0].built(m, t, src)
        &&& full ==> cells[0].filled(m, t, src)
        &&& cells_hold(
            m,
            u64_at(m, first),
            cells.drop_first(),
            t,
            u64_at(t, src),
            (fuel - 1) as nat,
            full,
        )
    }
}

/// Whether every extension of the chain of the source from `src` on is laid
/// out well.
pub open spec fn chain_well_laid(t: Bytes, src: u64, fuel: nat) -> bool
    decreases fuel,
{
    src == 0 || fuel == 0 || (well_laid(t, src) && chain_well_laid(
        t,
        u64_at(t, src),
        (fuel - 1) as nat,
    ))
}

/// A byte of one of the later copies is a byte of one of the copies, and so
/// is a byte of the first.
pub proof fn lemma_in_later_cells(cells: Seq<Cell>, a: u64)
    requires
        cells.len() > 0,
    ensures
        in_cells(cells, a) <==> cells[0].holds(a) || in_cells(cells.drop_first(), a),
{
    let rest = cells.drop_first();
    if in_cells(cells, a) {
        let k = choose|k: int| 0 <= k < cells.len() && (#[trigger] cells[k]).holds(a);
        if k > 0 {
            assert(rest[k - 1].holds(a));
        }
    }
    if in_cells(rest, a) {
        let k = choose|k: int| 0 <= k < rest.len() && (#[trigger] rest[k]).holds(a);
        assert(cells[k + 1].holds(a));
    }
    if cells[0].holds(a) {
        assert(in_cells(cells, a));
    }
}

/// The blocks of the copies are those of the first and those of the later
/// ones.
pub proof fn lemma_later_set(cells: Seq<Cell>)
    requires
        cells.len() > 0,
    ensures
        cells_set(cells) =~= cells[0].blocks().union(cells_set(cells.drop_first())),
{
    let rest = cells.drop_first();
    assert forall|b: Holding| cells_set(cells).contains(b) <==> cells[0].blocks().union(
        cells_set(rest),
    ).contains(b) by {
        if cells_set(cells).contains(b) {
            let k = choose|k: int| 0 <= k < cells.len() && (#[trigger] cells[k]).has(b);
            if k > 0 {
                assert(rest[k - 1].has(b));
            }
        }
        if cells_set(rest).contains(b) {
            let k = choose|k: int| 0 <= k < rest.len() && (#[trigger] rest[k]).has(b);
            assert(cells[k + 1].has(b));
        }
        if cells[0].has(b) {
            assert(cells_set(cells).contains(b));
        }
    }
}

/// What the alloc phase of the chain does, for a pointer that lies in a
/// block that the call holds and that ends a chain: the call holds the new
/// blocks of a copy of every extension of the source, clear of what it held
/// and of each other; the pointer begins the chain of the copies, which are
/// built; and no byte changes outside the pointer and the new blocks.
pub proof fn lemma_cells_allocated(
    before: Seq<Arena>,
    blocks: Set<Holding>,
    h: ShadowView,
    slot: u64,
    t: Bytes,
    src: u64,
    fuel: nat,
    home: Holding,
) -> (cells: Seq<Cell>)
    requires
        holding(before, h.arenas, blocks),
        blocks.contains(home),
        home.ptr <= slot,
        slot + 8 <= home.ptr + home.size,
        u64_at(h.bytes, slot) == 0,
        chain_well_laid(t, src, fuel),
        drm_i915_gem_context_create_ext::chain_allocated(h, slot, t, src, fuel).0 is Ok,
    ensures
        ({
            let after = drm_i915_gem_context_create_ext::chain_allocated(h, slot, t, src, fuel).1;
            &&& holding(before, after.arenas, blocks.union(cells_set(cells)))
            &&& forall|b: Holding| cells_set(cells).contains(b) ==> !blocks.contains(b)
            &&& forall|b: Holding, a: u64|
                #![trigger blocks.contains(b), within(b.ptr, b.size as int, a)]
                blocks.contains(b) && within(b.ptr, b.size as int, a) ==> !in_cells(cells, a)
            &&& cells_disjoint(cells)
            &&& cells_hold(after.bytes, u64_at(after.bytes, slot), cells, t, src, fuel, false)
            &&& forall|a: u64|
                !within(slot, 8, a) && !in_cells(cells, a) ==> byte_at(after.bytes, a) == byte_at(
                    h.bytes,
                    a,
                )
        }),
    decreases fuel,
{
    let after = drm_i915_gem_context_create_ext::chain_allocated(h, slot, t, src, fuel).1;
    if src == 0 {
        let cells = Seq::<Cell>::empty();
        assert(blocks.union(cells_set(cells)) =~= blocks);
        cells
    } else {
        let c = cell_of(h.arenas, t, src);
        let h1 = drm_i915_gem_context_create_ext::node_allocated(h, slot, t, src).1;
        let next = u64_at(t, src);
        lemma_cell_allocated(before, blocks, h, slot, t, src, home);
        lemma_held_range(before, h.arenas, blocks, home);
        let blocks1 = blocks.union(c.blocks());
        assert(blocks1.contains(c.node));
        let rest = lemma_cells_allocated(
            before,
            blocks1,
            h1,
            c.node.ptr,
            t,
            next,
            (fuel - 1) as nat,
            c.node,
        );
        let cells = seq![c].add(rest);
        assert(cells.drop_first() =~= rest);
        assert(cells[0] == c);
        lemma_later_set(cells);
        assert(blocks.union(cells_set(cells)) =~= blocks1.union(cells_set(rest)));
        assert forall|a: u64| c.holds(a) implies !in_cells(rest, a) by {
            let b = lemma_holds_block(c, a);
            assert(blocks1.contains(b));
        }
        assert forall|b: Holding, a: u64|
            #![trigger blocks.contains(b), within(b.ptr, b.size as int, a)]
            blocks.contains(b) && within(b.ptr, b.size as int, a) implies !in_cells(cells, a) by {
            assert(blocks1.contains(b));
            assert(c.clear_of(b.ptr, b.size as int));
            lemma_in_later_cells(cells, a);
            lemma_clear_outside(c, b.ptr, b.size as int, a);
        }
        assert forall|a: u64| within(slot, 8, a) implies byte_at(after.bytes, a) == byte_at(
            h1.bytes,
            a,
        ) by {
            assert(within(home.ptr, home.size as int, a));
            assert(blocks1.contains(home));
            assert(c.clear_of(home.ptr, home.size as int));
        }
        lemma_same_u64(after.bytes, h1.bytes, slot);
        lemma_cell_kept(c, h1.bytes, after.bytes, t, src, false);
        assert forall|a: u64| !within(slot, 8, a) && !in_cells(cells, a) implies byte_at(
            after.bytes,
            a,
        ) == byte_at(h.bytes, a) by {
            lemma_in_later_cells(cells, a);
        }
        assert forall|b: Holding| cells_set(cells).contains(b) implies !blocks.contains(b) by {
            if cells_set(rest).contains(b) {
                assert(!blocks1.contains(b));
            }
        }
        cells
    }
}

/// No byte of a copy that lies clear of a range is a byte of the range.
pub proof fn lemma_clear_outside(c: Cell, base: u64, len: int, a: u64)
    requires
        c.clear_of(base, len),
        within(base, len, a),
    ensures
        !c.holds(a),
{
    if in_nodes(c.engines, a) {
        let k = choose|k: int|
            0 <= k < c.engines.len() && within(
                (#[trigger] c.engines[k]).ptr,
                c.engines[k].size as int,
                a,
            );
        assert(clear(c.engines[k].ptr, c.engines[k].size as int, base, len));
    }
}

/// What the copy out does for a nested parameter that configures engines,
/// whose copy points to its value, which begins the chain of the engine
/// extensions: the copy keeps its pointers and mirrors the scalar fields of
/// the source, its value mirrors the value of the source behind the head of
/// the chain, and the bodies of the engine extensions mirror those of the
/// source. No byte changes outside the scalar fields, the value and the
/// bodies.
pub proof fn lemma_param_copied_out(
    d: Bytes,
    outer: Holding,
    inner: Holding,
    engines: Seq<Holding>,
    t: Bytes,
    csrc: u64,
)
    requires
        outer.size >= 24,
        outer.ptr + outer.size <= usize::MAX,
        inner.size >= 8,
        inner.ptr + inner.size <= usize::MAX,
        inner.size == u32_at(t, at(csrc, 4)),
        clear(inner.ptr, inner.size as int, outer.ptr, outer.size as int),
        nodes_apart(engines),
        nodes_clear_of(engines, outer.ptr, outer.size as int),
        nodes_clear_of(engines, inner.ptr, inner.size as int),
        matches_source(
            i915_context_param_engines::sizer(),
            engines,
            t,
            u64_at(t, u64_at(t, at(csrc, 16))),
            CHAIN_LIMIT as nat,
        ),
        u64_at(d, at(outer.ptr, 16)) == inner.ptr,
        heads(d, inner.ptr, engines),
    ensures
        ({
            let (r, after) = drm_i915_gem_context_param::copied_with(
                d,
                outer.ptr,
                t,
                csrc,
                Value::Engines,
            );
            let v = u64_at(t, at(csrc, 16));
            &&& r is Ok
            &&& u64_at(after, at(outer.ptr, 16)) == inner.ptr
            &&& heads(after, inner.ptr, engines)
            &&& mirrors(after, outer.ptr, t, csrc, 16)
            &&& mirrors(after, at(inner.ptr, 8), t, at(v, 8), inner.size - 8)
            &&& bodies(after, engines, t, u64_at(t, v))
            &&& forall|a: u64|
                !within(outer.ptr, 16, a) && !within(inner.ptr, inner.size as int, a) && !in_bodies(
                    engines,
                    a,
                ) ==> byte_at(after, a) == byte_at(d, a)
        }),
{
    reveal(drm_i915_gem_context_param::copied_with);
    reveal(i915_context_param_engines::copy_result);
    let size_of = i915_context_param_engines::sizer();
    let fuel = CHAIN_LIMIT as nat;
    let ob = outer.ptr;
    let ib = inner.ptr;
    let size = inner.size;
    let v = u64_at(t, at(csrc, 16));
    let first = u64_at(t, v);
    let head = u64_at(d, ib);
    let e1 = copied(d, ob, t, csrc, 16);
    lemma_kept_u64(d, ob, t, csrc, 16, at(ob, 16));
    lemma_kept_u64(d, ob, t, csrc, 16, ib);
    lemma_mirrors_copied(d, ob, t, csrc, 16);
    let moved = copied(e1, ib, t, v, size as nat);
    lemma_kept_u64(e1, ib, t, v, size as nat, at(ob, 16));
    lemma_mirrors_copied(e1, ib, t, v, size as nat);
    lemma_mirrors_part(moved, ib, t, v, size as int, 8, size - 8);
    lemma_mirrors_kept(e1, ib, t, v, size as nat, ob, t, csrc, 16);
    let e2 = with_u64(moved, ib, head);
    lemma_with_u64(moved, ib, head);
    lemma_put_kept_u64(moved, ib, head, at(ob, 16));
    lemma_mirrors_kept_u64(moved, ib, head, ob, t, csrc, 16);
    lemma_mirrors_kept_u64(moved, ib, head, at(ib, 8), t, at(v, 8), size - 8);
    assert(drm_i915_gem_context_param::value_copied(e1, ob, t, csrc, Value::Engines) == e2);
    assert forall|a: u64| !within(ob, 16, a) && !within(ib, size as int, a) implies byte_at(e2, a)
        == byte_at(d, a) by {
        lemma_copied_byte(d, ob, t, csrc, 16, a);
        lemma_copied_byte(e1, ib, t, v, size as nat, a);
    }
    assert forall|a: u64| in_nodes(engines, a) implies byte_at(e2, a) == byte_at(d, a) by {
        let k = choose|k: int|
            0 <= k < engines.len() && within((#[trigger] engines[k]).ptr, engines[k].size as int, a);
        assert(clear(engines[k].ptr, engines[k].size as int, ob, outer.size as int));
        assert(clear(engines[k].ptr, engines[k].size as int, ib, size as int));
    }
    assert forall|a: u64| in_links(engines, a) implies byte_at(e2, a) == byte_at(d, a) by {
        let k = choose|k: int| 0 <= k < engines.len() && within((#[trigger] engines[k]).ptr, 8, a);
        assert(engines[k].size >= 8);
        assert(within(engines[k].ptr, engines[k].size as int, a));
        assert(in_nodes(engines, a));
    }
    lemma_reaches_kept(d, e2, head, engines);
    lemma_clear_of_part(engines, ib, size as int, ib, 8);
    lemma_chain_copied_out(size_of, e2, ib, engines, t, first, fuel);
    let after = i915_context_param_engines::chain_copied(e2, ib, t, first, fuel).1;
    assert forall|a: u64| in_bodies(engines, a) implies !within(ob, outer.size as int, a)
        && !within(ib, size as int, a) by {
        let k = choose|k: int|
            0 <= k < engines.len() && within((#[trigger] engines[k]).ptr, engines[k].size as int, a)
                && !within(engines[k].ptr, 8, a);
        assert(clear(engines[k].ptr, engines[k].size as int, ob, outer.size as int));
        assert(clear(engines[k].ptr, engines[k].size as int, ib, size as int));
    }
    lemma_same_u64(after, e2, at(ob, 16));
    lemma_mirrors_framed(e2, after, ob, t, csrc, 16);
    lemma_mirrors_framed(e2, after, at(ib, 8), t, at(v, 8), size - 8);
}

/// What the copy out does for one extension whose copy is built: the copy
/// stays built and is filled, and keeps its place in its chain. No byte
/// changes outside its blocks.
pub proof fn lemma_cell_copied_out(d: Bytes, slot: u64, c: Cell, t: Bytes, src: u64)
    requires
        u64_at(d, slot) == c.node.ptr,
        c.shaped(t, src),
        c.apart(),
        c.built(d, t, src),
    ensures
        ({
            let (r, after) = drm_i915_gem_context_create_ext::node_copied(d, slot, t, src);
            &&& r is Ok
            &&& c.built(after, t, src)
            &&& c.filled(after, t, src)
            &&& forall|a: u64|
                !c.holds(a) || within(c.node.ptr, 8, a) ==> byte_at(after, a) == byte_at(d, a)
        }),
{
    reveal(drm_i915_gem_context_create_ext_setparam::copy_result);
    let nb = c.node.ptr;
    let ob = c.outer.ptr;
    let ib = c.inner.ptr;
    let size = c.outer.size;
    let csrc = nested(t, src);
    let engines = c.engines;
    let d1 = copied(d, at(nb, 8), t, at(src, 8), 24);
    let d2 = copied(d1, at(nb, 32), t, at(src, 32), 16);
    lemma_mirrors_copied(d, at(nb, 8), t, at(src, 8), 24);
    lemma_mirrors_kept(d1, at(nb, 32), t, at(src, 32), 16, at(nb, 8), t, at(src, 8), 24);
    lemma_mirrors_copied(d1, at(nb, 32), t, at(src, 32), 16);
    assert(at(at(nb, 8), 24) == at(nb, 32) && at(at(src, 8), 24) == at(src, 32));
    lemma_mirrors_join(d2, at(nb, 8), t, at(src, 8), 24, 16);
    lemma_kept_u64(d, at(nb, 8), t, at(src, 8), 24, at(nb, 48));
    lemma_kept_u64(d1, at(nb, 32), t, at(src, 32), 16, at(nb, 48));
    assert forall|a: u64| !within(at(nb, 8), 40, a) implies byte_at(d2, a) == byte_at(d, a) by {
        lemma_copied_byte(d, at(nb, 8), t, at(src, 8), 24, a);
        lemma_copied_byte(d1, at(nb, 32), t, at(src, 32), 16, a);
    }
    if size == 0 {
        lemma_mirrors_none(d2, ob, t, csrc);
    } else {
        let moved = copied(d2, ob, t, csrc, size as nat);
        lemma_mirrors_copied(d2, ob, t, csrc, size as nat);
        lemma_mirrors_kept(d2, ob, t, csrc, size as nat, at(nb, 8), t, at(src, 8), 40);
        lemma_kept_u64(d2, ob, t, csrc, size as nat, at(nb, 48));
        assert forall|a: u64| !within(ob, size as int, a) implies byte_at(moved, a) == byte_at(
            d2,
            a,
        ) by {
            lemma_copied_byte(d2, ob, t, csrc, size as nat, a);
        }
        if configures_engines(t, src) {
            lemma_same_u64(d2, d, at(ob, 16));
            lemma_same_u64(d2, d, ib);
            let d3 = with_u64(moved, at(ob, 16), ib);
            lemma_with_u64(moved, at(ob, 16), ib);
            lemma_put_kept_u64(moved, at(ob, 16), ib, at(nb, 48));
            lemma_same_u64(d3, d, ib);
            assert forall|a: u64| in_nodes(engines, a) implies byte_at(d3, a) == byte_at(d, a) by {
                let k = choose|k: int|
                    0 <= k < engines.len() && within(
                        (#[trigger] engines[k]).ptr,
                        engines[k].size as int,
                        a,
                    );
                assert(clear(engines[k].ptr, engines[k].size as int, ob, size as int));
                assert(clear(engines[k].ptr, engines[k].size as int, nb, 56));
            }
            assert forall|a: u64| in_links(engines, a) implies byte_at(d3, a) == byte_at(d, a) by {
                let k = choose|k: int|
                    0 <= k < engines.len() && within((#[trigger] engines[k]).ptr, 8, a);
                assert(engines[k].size >= 8);
                assert(within(engines[k].ptr, engines[k].size as int, a));
                assert(in_nodes(engines, a));
            }
            lemma_reaches_kept(d, d3, u64_at(d, ib), engines);
            lemma_param_copied_out(d3, c.outer, c.inner, engines, t, csrc);
            let after = drm_i915_gem_context_param::copied_with(d3, ob, t, csrc, Value::Engines).1;
            assert(drm_i915_gem_context_create_ext::node_copied(d, slot, t, src).1 == after);
            assert forall|a: u64| in_bodies(engines, a) implies in_nodes(engines, a) && !within(
                ob,
                size as int,
                a,
            ) && !within(nb, 56, a) by {
                let k = choose|k: int|
                    0 <= k < engines.len() && within(
                        (#[trigger] engines[k]).ptr,
                        engines[k].size as int,
                        a,
                    ) && !within(engines[k].ptr, 8, a);
                assert(clear(engines[k].ptr, engines[k].size as int, ob, size as int));
                assert(clear(engines[k].ptr, engines[k].size as int, nb, 56));
            }
            lemma_mirrors_part(moved, ob, t, csrc, size as int, 24, size - 24);
            lemma_mirrors_framed(moved, after, at(ob, 24), t, at(csrc, 24), size - 24);
            lemma_mirrors_framed(moved, after, at(nb, 8), t, at(src, 8), 40);
            lemma_same_u64(after, moved, at(nb, 48));
        }
    }
}

/// Copies that hold stay so in a memory that holds the same bytes in their
/// blocks.
pub proof fn lemma_cells_kept(
    m: Bytes,
    n: Bytes,
    first: u64,
    cells: Seq<Cell>,
    t: Bytes,
    src: u64,
    fuel: nat,
    full: bool,
)
    requires
        cells_hold(m, first, cells, t, src, fuel, full),
        forall|a: u64| in_cells(cells, a) ==> byte_at(n, a) == byte_at(m, a),
    ensures
        cells_hold(n, first, cells, t, src, fuel, full),
    decreases fuel,
{
    if src != 0 {
        let c = cells[0];
        let rest = cells.drop_first();
        assert forall|a: u64| c.holds(a) implies byte_at(n, a) == byte_at(m, a) by {
            assert(in_cells(cells, a));
        }
        assert forall|a: u64| in_cells(rest, a) implies byte_at(n, a) == byte_at(m, a) by {
            lemma_in_later_cells(cells, a);
        }
        lemma_cell_kept(c, m, n, t, src, full);
        lemma_same_u64(n, m, first);
        lemma_cells_kept(m, n, u64_at(m, first), rest, t, u64_at(t, src), (fuel - 1) as nat, full);
    }
}

/// What the copy out of the chain does for copies that are built: the
/// pointer keeps what it holds, and the copies stay built and are filled. No
/// byte changes outside the blocks of the copies.
pub proof fn lemma_cells_copied_out(
    d: Bytes,
    slot: u64,
    cells: Seq<Cell>,
    t: Bytes,
    src: u64,
    fuel: nat,
)
    requires
        cells_hold(d, u64_at(d, slot), cells, t, src, fuel, false),
        cells_disjoint(cells),
        forall|a: u64| within(slot, 8, a) ==> !in_cells(cells, a),
    ensures
        ({
            let (r, after) = drm_i915_gem_context_create_ext::chain_copied(d, slot, t, src, fuel);
            &&& r is Ok
            &&& u64_at(after, slot) == u64_at(d, slot)
            &&& cells_hold(after, u64_at(d, slot), cells, t, src, fuel, true)
            &&& forall|a: u64| !in_cells(cells, a) ==> byte_at(after, a) == byte_at(d, a)
        }),
    decreases fuel,
{
    if src != 0 {
        let c = cells[0];
        let rest = cells.drop_first();
        let nb = c.node.ptr;
        let next = u64_at(t, src);
        lemma_cell_copied_out(d, slot, c, t, src);
        let d1 = drm_i915_gem_context_create_ext::node_copied(d, slot, t, src).1;
        assert forall|a: u64| within(slot, 8, a) implies !c.holds(a) by {
            lemma_in_later_cells(cells, a);
        }
        lemma_same_u64(d1, d, slot);
        lemma_same_u64(d1, d, nb);
        assert forall|a: u64| in_cells(rest, a) implies byte_at(d1, a) == byte_at(d, a) by {
            if c.holds(a) {
                assert(!in_cells(rest, a));
            }
        }
        lemma_cells_kept(d, d1, u64_at(d, nb), rest, t, next, (fuel - 1) as nat, false);
        assert forall|a: u64| within(nb, 8, a) implies !in_cells(rest, a) by {
            assert(c.holds(a));
        }
        lemma_cells_copied_out(d1, nb, rest, t, next, (fuel - 1) as nat);
        let after = drm_i915_gem_context_create_ext::chain_copied(
            d1,
            nb,
            t,
            next,
            (fuel - 1) as nat,
        ).1;
        lemma_cell_kept(c, d1, after, t, src, true);
        assert forall|a: u64| within(slot, 8, a) implies byte_at(after, a) == byte_at(d1, a) by {
            lemma_in_later_cells(cells, a);
        }
        lemma_same_u64(after, d1, slot);
        assert forall|a: u64| !in_cells(cells, a) implies byte_at(after, a) == byte_at(d, a) by {
            lemma_in_later_cells(cells, a);
        }
    }
}

/// A copy back from a buffer that mirrors its source but for one pointer,
/// after which the pointer is written again as the source holds it, leaves
/// the source as it was; before the pointer is written again, the source is
/// as it was but for the pointer.
pub proof fn lemma_copied_restored(
    near: Bytes,
    t: Bytes,
    dst: u64,
    m: Bytes,
    src: u64,
    n: nat,
    off: int,
)
    requires
        same_bytes(near, t),
        0 <= off,
        off + 8 <= n <= 0x1_0000_0000,
        mirrors(m, src, t, dst, off),
        mirrors(m, at(src, off + 8), t, at(dst, off + 8), n - off - 8),
    ensures
        forall|a: u64|
            !within(at(dst, off), 8, a) ==> byte_at(copied(near, dst, m, src, n), a) == byte_at(
                t,
                a,
            ),
        same_bytes(
            with_u64(copied(near, dst, m, src, n), at(dst, off), u64_at(t, at(dst, off))),
            t,
        ),
{
    let moved = copied(near, dst, m, src, n);
    let field = at(dst, off);
    let back = with_u64(moved, field, u64_at(t, field));
    assert forall|a: u64| !within(field, 8, a) implies byte_at(moved, a) == byte_at(t, a) by {
        lemma_copied_byte(near, dst, m, src, n, a);
        if within(dst, n as int, a) {
            let i = offset(dst, a);
            lemma_offset(dst, a, i);
            if i < off {
                lemma_mirrors_byte(m, src, t, dst, off, i);
            } else {
                lemma_offset(field, a, i - off);
                let j = i - off - 8;
                lemma_mirrors_byte(m, at(src, off + 8), t, at(dst, off + 8), n - off - 8, j);
                assert(at(at(src, off + 8), j) == at(src, i));
                assert(at(at(dst, off + 8), j) == at(dst, i));
            }
        }
    }
    lemma_with_u64(moved, field, u64_at(t, field));
    assert forall|a: u64| byte_at(back, a) == byte_at(t, a) by {
        if within(field, 8, a) {
            let i = offset(field, a);
            lemma_offset(field, a, i);
            lemma_u64_bytes(moved, t, field, i);
        }
    }
}

/// What the copy back does for a nested parameter that configures engines,
/// from a copy that holds what the source holds: it leaves the trusted
/// memory as it was.
pub proof fn lemma_param_copied_back(
    near: Bytes,
    t: Bytes,
    csrc: u64,
    m: Bytes,
    outer: Holding,
    inner: Holding,
    engines: Seq<Holding>,
)
    requires
        same_bytes(near, t),
        inner.size >= 8,
        inner.size == u32_at(t, at(csrc, 4)),
        apart8(at(csrc, 16), u64_at(t, at(csrc, 16))),
        nodes_apart(engines),
        matches_source(
            i915_context_param_engines::sizer(),
            engines,
            t,
            u64_at(t, u64_at(t, at(csrc, 16))),
            CHAIN_LIMIT as nat,
        ),
        u64_at(m, at(outer.ptr, 16)) == inner.ptr,
        reaches(m, u64_at(m, inner.ptr), engines),
        mirrors(m, outer.ptr, t, csrc, 16),
        mirrors(m, at(inner.ptr, 8), t, at(u64_at(t, at(csrc, 16)), 8), inner.size - 8),
        bodies(m, engines, t, u64_at(t, u64_at(t, at(csrc, 16)))),
    ensures
        ({
            let (r, after) = drm_i915_gem_context_param::copied_with(
                near,
                csrc,
                m,
                outer.ptr,
                Value::Engines,
            );
            r is Ok && same_bytes(after, t)
        }),
{
    reveal(drm_i915_gem_context_param::copied_with);
    reveal(i915_context_param_engines::copy_result);
    let size_of = i915_context_param_engines::sizer();
    let fuel = CHAIN_LIMIT as nat;
    let ob = outer.ptr;
    let ib = inner.ptr;
    let size = inner.size;
    let v = u64_at(t, at(csrc, 16));
    let d1 = copied(near, csrc, m, ob, 16);
    lemma_mirrors_back(near, t, csrc, m, ob, 16);
    lemma_mirrors_part(m, ob, t, csrc, 16, 4, 4);
    lemma_mirrors_u32(m, at(ob, 4), t, at(csrc, 4));
    lemma_same_u64(d1, t, at(csrc, 16));
    lemma_same_u64(d1, t, v);
    let moved = copied(d1, v, m, ib, size as nat);
    lemma_mirrors_none(m, ib, t, v);
    assert(at(v, 0) == v);
    lemma_copied_restored(d1, t, v, m, ib, size as nat, 0);
    assert forall|a: u64| within(at(csrc, 16), 8, a) implies byte_at(moved, a) == byte_at(t, a) by {
        lemma_offset(at(csrc, 16), a, offset(at(csrc, 16), a));
        lemma_offset(v, a, offset(v, a));
    }
    lemma_same_u64(moved, t, at(csrc, 16));
    let e2 = with_u64(moved, v, u64_at(t, v));
    assert(drm_i915_gem_context_param::value_copied(d1, csrc, m, ob, Value::Engines) == e2);
    lemma_same_u64(e2, t, at(csrc, 16));
    lemma_engines_sizer();
    lemma_chain_copied_back(size_of, e2, t, v, m, u64_at(m, ib), engines, fuel);
}

/// What the copy back does for one extension, from a copy that is built and
/// filled: it leaves the trusted memory as it was.
pub proof fn lemma_cell_copied_back(near: Bytes, t: Bytes, slot: u64, m: Bytes, c: Cell)
    requires
        same_bytes(near, t),
        u64_at(t, slot) != 0,
        c.shaped(t, u64_at(t, slot)),
        c.apart(),
        c.built(m, t, u64_at(t, slot)),
        c.filled(m, t, u64_at(t, slot)),
    ensures
        ({
            let (r, after) = drm_i915_gem_context_create_ext::node_copied(
                near,
                slot,
                m,
                c.node.ptr,
            );
            r is Ok && same_bytes(after, t)
        }),
{
    reveal(drm_i915_gem_context_create_ext_setparam::copy_result);
    let src = u64_at(t, slot);
    let nb = c.node.ptr;
    let ob = c.outer.ptr;
    let size = c.outer.size;
    let csrc = nested(t, src);
    lemma_same_u64(near, t, slot);
    lemma_mirrors_part(m, at(nb, 8), t, at(src, 8), 40, 0, 24);
    lemma_mirrors_part(m, at(nb, 8), t, at(src, 8), 40, 0, 4);
    lemma_mirrors_part(m, at(nb, 8), t, at(src, 8), 40, 24, 16);
    lemma_mirrors_part(m, at(nb, 8), t, at(src, 8), 40, 28, 4);
    lemma_mirrors_part(m, at(nb, 8), t, at(src, 8), 40, 32, 8);
    assert(at(at(nb, 8), 0) == at(nb, 8) && at(at(src, 8), 0) == at(src, 8));
    assert(at(at(nb, 8), 24) == at(nb, 32) && at(at(src, 8), 24) == at(src, 32));
    assert(at(at(nb, 8), 28) == at(nb, 36) && at(at(src, 8), 28) == at(src, 36));
    assert(at(at(nb, 8), 32) == at(nb, 40) && at(at(src, 8), 32) == at(src, 40));
    lemma_mirrors_u32(m, at(nb, 8), t, at(src, 8));
    lemma_mirrors_u32(m, at(nb, 36), t, at(src, 36));
    lemma_mirrors_u64(m, at(nb, 40), t, at(src, 40));
    let d1 = copied(near, at(src, 8), m, at(nb, 8), 24);
    lemma_mirrors_back(near, t, at(src, 8), m, at(nb, 8), 24);
    let d2 = copied(d1, at(src, 32), m, at(nb, 32), 16);
    lemma_mirrors_back(d1, t, at(src, 32), m, at(nb, 32), 16);
    lemma_same_u64(d2, t, at(src, 48));
    if size > 0 {
        let moved = copied(d2, csrc, m, ob, size as nat);
        if configures_engines(t, src) {
            lemma_copied_restored(d2, t, csrc, m, ob, size as nat, 16);
            assert forall|a: u64| within(at(src, 48), 8, a) implies byte_at(moved, a) == byte_at(
                t,
                a,
            ) by {
                lemma_offset(at(src, 48), a, offset(at(src, 48), a));
                lemma_offset(at(csrc, 16), a, offset(at(csrc, 16), a));
            }
            lemma_same_u64(moved, t, at(src, 48));
            lemma_same_u64(d2, t, at(csrc, 16));
            let d3 = with_u64(moved, at(csrc, 16), u64_at(t, at(csrc, 16)));
            lemma_param_copied_back(d3, t, csrc, m, c.outer, c.inner, c.engines);
        } else {
            lemma_mirrors_back(d2, t, csrc, m, ob, size as nat);
        }
    }
}

/// What the copy back of the chain does, from copies that are built and
/// filled: it leaves the trusted memory as it was.
pub proof fn lemma_cells_copied_back(
    near: Bytes,
    t: Bytes,
    slot: u64,
    m: Bytes,
    first: u64,
    cells: Seq<Cell>,
    fuel: nat,
)
    requires
        same_bytes(near, t),
        cells_hold(m, first, cells, t, u64_at(t, slot), fuel, true),
    ensures
        drm_i915_gem_context_create_ext::chain_copied(near, slot, m, first, fuel).0 is Ok,
        same_bytes(
            drm_i915_gem_context_create_ext::chain_copied(near, slot, m, first, fuel).1,
            t,
        ),
    decreases fuel,
{
    let src = u64_at(t, slot);
    if src != 0 {
        let c = cells[0];
        lemma_cell_copied_back(near, t, slot, m, c);
        let d1 = drm_i915_gem_context_create_ext::node_copied(near, slot, m, first).1;
        lemma_same_u64(d1, t, slot);
        lemma_cells_copied_back(
            d1,
            t,
            src,
            m,
            u64_at(m, first),
            cells.drop_first(),
            (fuel - 1) as nat,
        );
    }
}

/// The first byte of a block of a copy is a byte of the copy.
pub proof fn lemma_block_held(c: Cell, b: Holding)
    requires
        c.apart(),
        c.node.size == 56,
        c.has(b),
    ensures
        c.holds(b.ptr),
        b.size > 0,
{
    if c.engines.contains(b) {
        let k = choose|k: int| 0 <= k < c.engines.len() && c.engines[k] == b;
        assert(c.engines[k].size >= 8);
        assert(within(c.engines[k].ptr, c.engines[k].size as int, b.ptr));
    }
}

/// The first byte of a block of copies that hold is a byte of the copies.
pub proof fn lemma_blocks_held(
    m: Bytes,
    first: u64,
    cells: Seq<Cell>,
    t: Bytes,
    src: u64,
    fuel: nat,
    full: bool,
    b: Holding,
)
    requires
        cells_hold(m, first, cells, t, src, fuel, full),
        cells_set(cells).contains(b),
    ensures
        in_cells(cells, b.ptr),
    decreases fuel,
{
    if src != 0 {
        lemma_later_set(cells);
        lemma_in_later_cells(cells, b.ptr);
        if cells[0].has(b) {
            lemma_block_held(cells[0], b);
        } else {
            lemma_blocks_held(
                m,
                u64_at(m, first),
                cells.drop_first(),
                t,
                u64_at(t, src),
                (fuel - 1) as nat,
                full,
                b,
            );
        }
    }
}

/// What the free phase does for one extension whose copy is built and
/// filled: the copy holds the name of an extension that sets a parameter,
/// its value is given back with what lies behind it, and once the copy
/// itself is given back, the call holds what it held beside the copy.
pub proof fn lemma_cell_freed(
    before: Seq<Arena>,
    blocks: Set<Holding>,
    h: ShadowView,
    c: Cell,
    t: Bytes,
    src: u64,
)
    requires
        holding(before, h.arenas, blocks.union(c.blocks())),
        forall|b: Holding| c.has(b) ==> !blocks.contains(b),
        c.shaped(t, src),
        c.apart(),
        c.built(h.bytes, t, src),
        c.filled(h.bytes, t, src),
    ensures
        ({
            let (r, after) = drm_i915_gem_context_create_ext_setparam::freed(h, c.node.ptr);
            &&& u32_at(h.bytes, at(c.node.ptr, 8)) & PRELIM_I915_USER_EXT_MASK == 0
            &&& r is Ok
            &&& after.bytes == h.bytes
            &&& holding(before, released(after.arenas, c.node.ptr, 56), blocks)
        }),
{
    reveal(drm_i915_gem_context_create_ext_setparam::freed);
    let m = h.bytes;
    let nb = c.node.ptr;
    let ob = c.outer.ptr;
    let ib = c.inner.ptr;
    let size = c.outer.size;
    let csrc = nested(t, src);
    let engines = c.engines;
    lemma_mirrors_part(m, at(nb, 8), t, at(src, 8), 40, 0, 4);
    lemma_mirrors_part(m, at(nb, 8), t, at(src, 8), 40, 28, 4);
    lemma_mirrors_part(m, at(nb, 8), t, at(src, 8), 40, 32, 8);
    assert(at(at(nb, 8), 0) == at(nb, 8) && at(at(src, 8), 0) == at(src, 8));
    assert(at(at(nb, 8), 28) == at(nb, 36) && at(at(src, 8), 28) == at(src, 36));
    assert(at(at(nb, 8), 32) == at(nb, 40) && at(at(src, 8), 32) == at(src, 40));
    lemma_mirrors_u32(m, at(nb, 8), t, at(src, 8));
    lemma_mirrors_u32(m, at(nb, 36), t, at(src, 36));
    lemma_mirrors_u64(m, at(nb, 40), t, at(src, 40));
    let with_node = blocks.insert(c.node);
    if size > 0 {
        let with_outer = with_node.insert(c.outer);
        if configures_engines(t, src) {
            assert(blocks.union(c.blocks()) =~= with_outer.insert(c.inner).union(
                engines.to_set(),
            ));
            assert forall|k: int| 0 <= k < engines.len() implies !with_outer.insert(
                c.inner,
            ).contains(#[trigger] engines[k]) by {
                assert(c.has(engines[k]));
                assert(clear(engines[k].ptr, engines[k].size as int, nb, 56));
                assert(clear(engines[k].ptr, engines[k].size as int, ob, size as int));
                assert(clear(engines[k].ptr, engines[k].size as int, ib, c.inner.size as int));
            }
            assert(c.has(c.inner) && c.has(c.outer) && c.has(c.node));
            lemma_param_freed(before, with_outer, h, c.outer, c.inner, engines, t, csrc);
            let h1 = drm_i915_gem_context_param::freed_with(h, ob, Value::Engines).1;
            lemma_buffer_leaves(before, h1.arenas, with_outer, c.outer, ob, size);
            assert(with_outer.remove(c.outer) =~= with_node);
            let a3 = released(h1.arenas, ob, size);
            lemma_buffer_leaves(before, a3, with_node, c.node, nb, 56);
            assert(with_node.remove(c.node) =~= blocks);
        } else {
            assert(blocks.union(c.blocks()) =~= with_outer);
            assert(c.has(c.outer) && c.has(c.node));
            lemma_buffer_leaves(before, h.arenas, with_outer, c.outer, ob, size);
            assert(with_outer.remove(c.outer) =~= with_node);
            let a3 = released(h.arenas, ob, size);
            lemma_buffer_leaves(before, a3, with_node, c.node, nb, 56);
            assert(with_node.remove(c.node) =~= blocks);
        }
    } else {
        assert(blocks.union(c.blocks()) =~= with_node);
        assert(c.has(c.node));
        lemma_buffer_leaves(before, h.arenas, with_node, c.node, nb, 56);
        assert(with_node.remove(c.node) =~= blocks);
    }
}

/// What the free phase of the chain does for copies that are built and
/// filled: every block of the copies is given back, and the call holds what
/// it held beside them. No byte changes.
pub proof fn lemma_cells_freed(
    before: Seq<Arena>,
    blocks: Set<Holding>,
    h: ShadowView,
    first: u64,
    cells: Seq<Cell>,
    t: Bytes,
    src: u64,
    fuel: nat,
)
    requires
        holding(before, h.arenas, blocks.union(cells_set(cells))),
        forall|b: Holding| cells_set(cells).contains(b) ==> !blocks.contains(b),
        cells_disjoint(cells),
        cells_hold(h.bytes, first, cells, t, src, fuel, true),
    ensures
        ({
            let (r, after) = drm_i915_gem_context_create_ext::chain_freed(h, first, fuel);
            &&& r is Ok
            &&& after.bytes == h.bytes
            &&& holding(before, after.arenas, blocks)
        }),
    decreases fuel,
{
    if src == 0 {
        assert(blocks.union(cells_set(cells)) =~= blocks);
    } else {
        let c = cells[0];
        let rest = cells.drop_first();
        let m = h.bytes;
        let others = blocks.union(cells_set(rest));
        lemma_later_set(cells);
        assert(blocks.union(cells_set(cells)) =~= others.union(c.blocks()));
        assert forall|b: Holding| c.has(b) implies !others.contains(b) by {
            assert(cells_set(cells).contains(b));
            if cells_set(rest).contains(b) {
                lemma_block_held(c, b);
                lemma_blocks_held(
                    m,
                    u64_at(m, first),
                    rest,
                    t,
                    u64_at(t, src),
                    (fuel - 1) as nat,
                    true,
                    b,
                );
            }
        }
        lemma_cell_freed(before, others, h, c, t, src);
        let h1 = drm_i915_gem_context_create_ext_setparam::freed(h, first).1;
        let h2 = ShadowView { arenas: released(h1.arenas, first, 56), bytes: h1.bytes };
        assert forall|b: Holding| cells_set(rest).contains(b) implies !blocks.contains(b) by {
            assert(cells_set(cells).contains(b));
        }
        lemma_cells_freed(
            before,
            blocks,
            h2,
            u64_at(m, first),
            rest,
            t,
            u64_at(t, src),
            (fuel - 1) as nat,
        );
    }
}

/// The creation of a context whose extensions are laid out well comes back
/// and gives back.
pub proof fn lemma_context_create_comes_back(
    before: Seq<Arena>,
    h: ShadowView,
    t: Bytes,
    arg: u64,
    root: Holding,
)
    requires
        holding(before, h.arenas, set![root]),
        root.size == 16,
        chain_well_laid(t, u64_at(t, at(arg, 8)), CHAIN_LIMIT as nat),
    ensures
        comes_back(Deep::ContextCreateExt, h, t, arg, root.ptr),
        gives_back(Deep::ContextCreateExt, before, h, t, arg, root),
{
    reveal(Deep::allocated);
    reveal(Deep::copy_result);
    reveal(Deep::freed);
    reveal(drm_i915_gem_context_create_ext::allocated);
    reveal(drm_i915_gem_context_create_ext::copy_result);
    reveal(drm_i915_gem_context_create_ext::freed);
    let p = root.ptr;
    let slot = at(p, 8);
    let x0 = u64_at(t, at(arg, 8));
    let fuel = CHAIN_LIMIT as nat;
    if drm_i915_gem_context_create_ext::allocated(h, p, t, arg).0 is Ok {
        assert(set![root].contains(root));
        lemma_held_range(before, h.arenas, set![root], root);
        let h0 = ShadowView { arenas: h.arenas, bytes: with_u64(h.bytes, slot, 0) };
        lemma_with_u64(h.bytes, slot, 0);
        let cells = lemma_cells_allocated(before, set![root], h0, slot, t, x0, fuel, root);
        let h1 = drm_i915_gem_context_create_ext::allocated(h, p, t, arg).1;
        let d0 = copied(h1.bytes, p, t, arg, 8);
        lemma_kept_u64(h1.bytes, p, t, arg, 8, slot);
        lemma_mirrors_copied(h1.bytes, p, t, arg, 8);
        assert forall|a: u64| within(p, 16, a) implies !in_cells(cells, a) by {
            assert(within(root.ptr, root.size as int, a));
        }
        assert forall|a: u64| in_cells(cells, a) implies byte_at(d0, a) == byte_at(h1.bytes, a) by {
            lemma_copied_byte(h1.bytes, p, t, arg, 8, a);
        }
        lemma_cells_kept(h1.bytes, d0, u64_at(h1.bytes, slot), cells, t, x0, fuel, false);
        lemma_cells_copied_out(d0, slot, cells, t, x0, fuel);
        let m = drm_i915_gem_context_create_ext::chain_copied(d0, slot, t, x0, fuel).1;
        lemma_mirrors_framed(d0, m, p, t, arg, 8);
        lemma_mirrors_back(t, t, arg, m, p, 8);
        let near = copied(t, arg, m, p, 8);
        lemma_cells_copied_back(near, t, at(arg, 8), m, u64_at(m, slot), cells, fuel);
        lemma_cells_freed(
            before,
            set![root],
            ShadowView { arenas: h1.arenas, bytes: m },
            u64_at(m, slot),
            cells,
            t,
            x0,
            fuel,
        );
    }
}

/// The creation of a context whose extensions are laid out well, and whose
/// driver leaves the copy of the argument alone, leaves the trusted memory
/// as it was, and gives back all that it allocated.
pub proof fn lemma_context_create_loopback(h: ShadowView, t: Bytes, arg: u64)
    requires
        sound(h.arenas),
        chain_well_laid(t, u64_at(t, at(arg, 8)), CHAIN_LIMIT as nat),
        exec2_result(Deep::ContextCreateExt, h, t, arg).0 is Ok,
    ensures
        ({
            let (ptr, shadow) = exec2_result(Deep::ContextCreateExt, h, t, arg);
            let (done, back, after) = exec2_finished(
                Deep::ContextCreateExt,
                t,
                arg,
                shadow,
                ptr->Ok_0,
            );
            &&& done is Ok
            &&& same_bytes(back, t)
            &&& sound(after.arenas)
            &&& same_free(after.arenas, h.arenas)
            &&& same_blocks(after.arenas, h.arenas)
        }),
{
    let kind = Deep::ContextCreateExt;
    lemma_root_held(kind, h);
    lemma_context_create_comes_back(
        h.arenas,
        begun(kind, h),
        t,
        arg,
        grant(h.arenas, kind.size()),
    );
    lemma_exec2_comes_back(kind, h, t, arg);
    lemma_exec2_gives_back(kind, h, t, arg);
}

/// Whether the argument at `arg` that configures engines has a value that
/// holds a nested parameter, whose value holds the address of a chain, and
/// the pointers of the three do not lie across each other.
pub open spec fn well_nested(t: Bytes, arg: u64) -> bool {
    let inner = u64_at(t, at(arg, 16));
    &&& u32_at(t, at(arg, 4)) >= 24
    &&& u32_at(t, at(inner, 4)) >= 8
    &&& apart8(at(arg, 16), at(inner, 16))
    &&& apart8(at(inner, 16), u64_at(t, at(inner, 16)))
}

/// What the free phase does for a nested parameter that configures engines
/// and is built and filled: the engine extensions and the value are given
/// back, and the call holds what it held beside them. No byte changes.
pub proof fn lemma_param_freed(
    before: Seq<Arena>,
    blocks: Set<Holding>,
    h: ShadowView,
    outer: Holding,
    inner: Holding,
    engines: Seq<Holding>,
    t: Bytes,
    csrc: u64,
)
    requires
        holding(before, h.arenas, blocks.insert(inner).union(engines.to_set())),
        !blocks.contains(inner),
        forall|k: int| 0 <= k < engines.len() ==> !blocks.insert(inner).contains(#[trigger] engines[k]),
        inner.size >= 8,
        inner.size == u32_at(t, at(csrc, 4)),
        nodes_apart(engines),
        matches_source(
            i915_context_param_engines::sizer(),
            engines,
            t,
            u64_at(t, u64_at(t, at(csrc, 16))),
            CHAIN_LIMIT as nat,
        ),
        u64_at(h.bytes, at(outer.ptr, 16)) == inner.ptr,
        reaches(h.bytes, u64_at(h.bytes, inner.ptr), engines),
        mirrors(h.bytes, outer.ptr, t, csrc, 16),
        bodies(h.bytes, engines, t, u64_at(t, u64_at(t, at(csrc, 16)))),
    ensures
        ({
            let (r, after) = drm_i915_gem_context_param::freed_with(h, outer.ptr, Value::Engines);
            &&& r is Ok
            &&& after.bytes == h.bytes
            &&& holding(before, after.arenas, blocks)
        }),
{
    reveal(drm_i915_gem_context_param::freed_with);
    reveal(i915_context_param_engines::freed);
    let m = h.bytes;
    let size_of = i915_context_param_engines::sizer();
    let fuel = CHAIN_LIMIT as nat;
    let with_inner = blocks.insert(inner);
    lemma_engines_sizer();
    lemma_mirrors_part(m, outer.ptr, t, csrc, 16, 4, 4);
    lemma_mirrors_u32(m, at(outer.ptr, 4), t, at(csrc, 4));
    lemma_bodies_sized(size_of, m, engines, t, u64_at(t, u64_at(t, at(csrc, 16))), fuel);
    lemma_chain_freed(size_of, before, with_inner, h, u64_at(m, inner.ptr), engines, fuel);
    let h1 = i915_context_param_engines::chain_freed(h, u64_at(m, inner.ptr), fuel).1;
    assert(with_inner.contains(inner));
    lemma_buffer_leaves(before, h1.arenas, with_inner, inner, inner.ptr, inner.size);
    assert(with_inner.remove(inner) =~= blocks);
}

/// A call that sets or reads the engines of a context through a nested
/// parameter that is laid out well comes back and gives back.
pub proof fn lemma_nested_param_comes_back(
    before: Seq<Arena>,
    h: ShadowView,
    t: Bytes,
    arg: u64,
    root: Holding,
)
    requires
        holding(before, h.arenas, set![root]),
        root.size == 24,
        drm_i915_gem_context_param::nests(t, arg),
        well_nested(t, arg),
    ensures
        comes_back(Deep::ContextParam, h, t, arg, root.ptr),
        gives_back(Deep::ContextParam, before, h, t, arg, root),
{
    reveal(Deep::allocated);
    reveal(Deep::copy_result);
    reveal(Deep::freed);
    reveal(drm_i915_gem_context_param::allocated);
    reveal(drm_i915_gem_context_param::copy_result);
    reveal(drm_i915_gem_context_param::freed);
    let p = root.ptr;
    let size = u32_at(t, at(arg, 4)) as usize;
    let csrc = u64_at(t, at(arg, 16));
    let v = u64_at(t, at(csrc, 16));
    if drm_i915_gem_context_param::allocated(h, p, t, arg).0 is Ok {
        assert(set![root].contains(root));
        lemma_held_range(before, h.arenas, set![root], root);
        // The alloc phase.
        let outer = grant(h.arenas, size);
        let a1 = allocation(h.arenas, size).1;
        let b1 = with_u64(h.bytes, at(p, 16), outer.ptr);
        assert(drm_i915_gem_context_param::allocated_with(h, p, t, arg, Value::Opaque) == (
            Ok::<(), Error>(()),
            ShadowView { arenas: a1, bytes: b1 },
        ) && allocation(h.arenas, size).0 is Ok) by {
            reveal(drm_i915_gem_context_param::allocated_with);
        }
        lemma_buffer_joins(before, h.arenas, set![root], size);
        let blocks1 = set![root].insert(outer);
        assert(blocks1.contains(outer) && blocks1.contains(root));
        lemma_held_range(before, a1, blocks1, outer);
        lemma_with_u64(h.bytes, at(p, 16), outer.ptr);
        let h1 = ShadowView { arenas: a1, bytes: b1 };
        lemma_param_allocated(before, blocks1, h1, t, csrc, outer);
        let inner = grant(a1, u32_at(t, at(csrc, 4)) as usize);
        let engines = chain_grants(
            i915_context_param_engines::sizer(),
            allocation(a1, inner.size).1,
            t,
            u64_at(t, v),
            CHAIN_LIMIT as nat,
        );
        let h2 = drm_i915_gem_context_param::allocated(h, p, t, arg).1;
        assert(clear(inner.ptr, inner.size as int, p, 24));
        assert(clear(outer.ptr, size as int, p, 24));
        assert(nodes_clear_of(engines, p, 24));
        assert(nodes_clear_of(engines, outer.ptr, size as int));
        assert forall|a: u64| within(at(p, 16), 8, a) implies byte_at(h2.bytes, a) == byte_at(
            b1,
            a,
        ) by {
            if in_nodes(engines, a) {
                let k = choose|k: int|
                    0 <= k < engines.len() && within(
                        (#[trigger] engines[k]).ptr,
                        engines[k].size as int,
                        a,
                    );
                assert(clear(engines[k].ptr, engines[k].size as int, p, 24));
            }
        }
        lemma_same_u64(h2.bytes, b1, at(p, 16));
        lemma_nested_param_mirrored(h2.bytes, p, outer, inner, engines, t, arg);
        let m = drm_i915_gem_context_param::copy_result(h2.bytes, p, t, arg, Direction::t2u).1;
        // The copy back.
        lemma_mirrors_part(m, p, t, arg, 16, 4, 4);
        lemma_mirrors_u32(m, at(p, 4), t, at(arg, 4));
        lemma_mirrors_part(m, p, t, arg, 16, 8, 8);
        lemma_mirrors_u64(m, at(p, 8), t, at(arg, 8));
        let d1 = copied(t, arg, m, p, 16);
        lemma_mirrors_back(t, t, arg, m, p, 16);
        lemma_same_u64(d1, t, at(arg, 16));
        let moved = copied(d1, csrc, m, outer.ptr, size as nat);
        lemma_copied_restored(d1, t, csrc, m, outer.ptr, size as nat, 16);
        assert forall|a: u64| within(at(arg, 16), 8, a) implies byte_at(moved, a) == byte_at(
            t,
            a,
        ) by {
            lemma_offset(at(arg, 16), a, offset(at(arg, 16), a));
            lemma_offset(at(csrc, 16), a, offset(at(csrc, 16), a));
        }
        lemma_same_u64(moved, t, at(arg, 16));
        lemma_same_u64(d1, t, at(csrc, 16));
        let d3 = with_u64(moved, at(csrc, 16), v);
        lemma_param_copied_back(d3, t, csrc, m, outer, inner, engines);
        // The free phase.
        let hm = ShadowView { arenas: h2.arenas, bytes: m };
        assert(blocks1.insert(inner).union(engines.to_set()).contains(outer));
        lemma_held_owned(
            before,
            h2.arenas,
            blocks1.insert(inner).union(engines.to_set()),
            outer,
        );
        lemma_param_freed(before, blocks1, hm, outer, inner, engines, t, csrc);
        let h3 = drm_i915_gem_context_param::freed_with(hm, outer.ptr, Value::Engines).1;
        lemma_buffer_leaves(before, h3.arenas, blocks1, outer, outer.ptr, size);
        assert(blocks1.remove(outer) =~= set![root]);
        assert(drm_i915_gem_context_param::freed_with(h3, p, Value::Opaque) == (
            Ok::<(), Error>(()),
            ShadowView { arenas: released(h3.arenas, outer.ptr, size), bytes: m },
        )) by {
            reveal(drm_i915_gem_context_param::freed_with);
        }
    }
}

/// The copy of an argument that configures engines after the copy out: it
/// mirrors the scalar fields of the argument and points to its value, which
/// is a nested parameter that is built and filled.
pub proof fn lemma_nested_param_mirrored(
    b: Bytes,
    p: u64,
    outer: Holding,
    inner: Holding,
    engines: Seq<Holding>,
    t: Bytes,
    arg: u64,
)
    requires
        p + 24 <= 0x1_0000_0000_0000_0000,
        drm_i915_gem_context_param::nests(t, arg),
        outer.size == u32_at(t, at(arg, 4)),
        outer.size >= 24,
        outer.ptr + outer.size <= usize::MAX,
        inner.size >= 8,
        inner.ptr + inner.size <= usize::MAX,
        inner.size == u32_at(t, at(u64_at(t, at(arg, 16)), 4)),
        clear(outer.ptr, outer.size as int, p, 24),
        clear(inner.ptr, inner.size as int, p, 24),
        clear(inner.ptr, inner.size as int, outer.ptr, outer.size as int),
        nodes_apart(engines),
        nodes_clear_of(engines, p, 24),
        nodes_clear_of(engines, outer.ptr, outer.size as int),
        nodes_clear_of(engines, inner.ptr, inner.size as int),
        matches_source(
            i915_context_param_engines::sizer(),
            engines,
            t,
            u64_at(t, u64_at(t, at(u64_at(t, at(arg, 16)), 16))),
            CHAIN_LIMIT as nat,
        ),
        u64_at(b, at(p, 16)) == outer.ptr,
        u64_at(b, at(outer.ptr, 16)) == inner.ptr,
        heads(b, inner.ptr, engines),
    ensures
        ({
            let (r, m) = drm_i915_gem_context_param::copy_result(b, p, t, arg, Direction::t2u);
            let csrc = u64_at(t, at(arg, 16));
            let v = u64_at(t, at(csrc, 16));
            &&& r is Ok
            &&& mirrors(m, p, t, arg, 16)
            &&& u64_at(m, at(p, 16)) == outer.ptr
            &&& u64_at(m, at(outer.ptr, 16)) == inner.ptr
            &&& reaches(m, u64_at(m, inner.ptr), engines)
            &&& mirrors(m, outer.ptr, t, csrc, 16)
            &&& mirrors(m, at(outer.ptr, 24), t, at(csrc, 24), outer.size - 24)
            &&& mirrors(m, at(inner.ptr, 8), t, at(v, 8), inner.size - 8)
            &&& bodies(m, engines, t, u64_at(t, v))
        }),
{
    reveal(drm_i915_gem_context_param::copy_result);
    let ob = outer.ptr;
    let ib = inner.ptr;
    let size = outer.size;
    let csrc = u64_at(t, at(arg, 16));
    let d1 = copied(b, p, t, arg, 16);
    lemma_mirrors_copied(b, p, t, arg, 16);
    lemma_kept_u64(b, p, t, arg, 16, at(p, 16));
    lemma_kept_u64(b, p, t, arg, 16, at(ob, 16));
    lemma_kept_u64(b, p, t, arg, 16, ib);
    let moved = copied(d1, ob, t, csrc, size as nat);
    lemma_mirrors_copied(d1, ob, t, csrc, size as nat);
    lemma_mirrors_kept(d1, ob, t, csrc, size as nat, p, t, arg, 16);
    lemma_kept_u64(d1, ob, t, csrc, size as nat, at(p, 16));
    lemma_kept_u64(d1, ob, t, csrc, size as nat, ib);
    let d3 = with_u64(moved, at(ob, 16), ib);
    lemma_with_u64(moved, at(ob, 16), ib);
    lemma_put_kept_u64(moved, at(ob, 16), ib, at(p, 16));
    lemma_put_kept_u64(moved, at(ob, 16), ib, ib);
    assert forall|a: u64| !within(p, 16, a) && !within(ob, size as int, a) implies byte_at(d3, a)
        == byte_at(b, a) by {
        lemma_copied_byte(b, p, t, arg, 16, a);
        lemma_copied_byte(d1, ob, t, csrc, size as nat, a);
    }
    assert forall|a: u64| in_nodes(engines, a) implies !within(p, 24, a) && !within(
        ob,
        size as int,
        a,
    ) by {
        let k = choose|k: int|
            0 <= k < engines.len() && within((#[trigger] engines[k]).ptr, engines[k].size as int, a);
        assert(clear(engines[k].ptr, engines[k].size as int, ob, size as int));
        assert(clear(engines[k].ptr, engines[k].size as int, p, 24));
    }
    assert forall|a: u64| in_links(engines, a) implies byte_at(d3, a) == byte_at(b, a) by {
        let k = choose|k: int| 0 <= k < engines.len() && within((#[trigger] engines[k]).ptr, 8, a);
        assert(engines[k].size >= 8);
        assert(within(engines[k].ptr, engines[k].size as int, a));
        assert(in_nodes(engines, a));
    }
    lemma_reaches_kept(b, d3, u64_at(b, ib), engines);
    lemma_param_copied_out(d3, outer, inner, engines, t, csrc);
    let m = drm_i915_gem_context_param::copied_with(d3, ob, t, csrc, Value::Engines).1;
    assert forall|a: u64| in_bodies(engines, a) implies in_nodes(engines, a) by {
        let k = choose|k: int|
            0 <= k < engines.len() && within((#[trigger] engines[k]).ptr, engines[k].size as int, a)
                && !within(engines[k].ptr, 8, a);
    }
    lemma_mirrors_part(moved, ob, t, csrc, size as int, 24, size - 24);
    lemma_mirrors_framed(moved, m, at(ob, 24), t, at(csrc, 24), size - 24);
    lemma_mirrors_framed(moved, m, p, t, arg, 16);
    lemma_same_u64(m, moved, at(p, 16));
}

/// A call that reads or sets a parameter of a context and whose driver
/// leaves the copy of the argument alone leaves the trusted memory as it
/// was, and gives back all that it allocated, where an argument that
/// configures engines is laid out well.
pub proof fn lemma_context_param_loopback(h: ShadowView, t: Bytes, arg: u64)
    requires
        sound(h.arenas),
        drm_i915_gem_context_param::nests(t, arg) ==> well_nested(t, arg),
        exec2_result(Deep::ContextParam, h, t, arg).0 is Ok,
    ensures
        ({
            let (ptr, shadow) = exec2_result(Deep::ContextParam, h, t, arg);
            let (done, back, after) = exec2_finished(
                Deep::ContextParam,
                t,
                arg,
                shadow,
                ptr->Ok_0,
            );
            &&& done is Ok
            &&& same_bytes(back, t)
            &&& sound(after.arenas)
            &&& same_free(after.arenas, h.arenas)
            &&& same_blocks(after.arenas, h.arenas)
        }),
{
    let kind = Deep::ContextParam;
    let root = grant(h.arenas, kind.size());
    lemma_root_held(kind, h);
    if drm_i915_gem_context_param::nests(t, arg) {
        lemma_nested_param_comes_back(h.arenas, begun(kind, h), t, arg, root);
    } else {
        lemma_plain_param_comes_back(h.arenas, begun(kind, h), t, arg, root);
    }
    lemma_exec2_comes_back(kind, h, t, arg);
    lemma_exec2_gives_back(kind, h, t, arg);
}

/// Two memories in which a copy is built and filled, and keeps the same
/// place in its chain, hold the same bytes in its blocks.
pub proof fn lemma_cell_agrees(c: Cell, m1: Bytes, m2: Bytes, t: Bytes, src: u64)
    requires
        c.shaped(t, src),
        c.apart(),
        c.built(m1, t, src),
        c.built(m2, t, src),
        c.filled(m1, t, src),
        c.filled(m2, t, src),
        u64_at(m1, c.node.ptr) == u64_at(m2, c.node.ptr),
    ensures
        forall|a: u64| c.holds(a) ==> byte_at(m1, a) == byte_at(m2, a),
{
    let nb = c.node.ptr;
    let ob = c.outer.ptr;
    let ib = c.inner.ptr;
    let csrc = nested(t, src);
    lemma_same_number(m1, m2, nb);
    lemma_mirrors_agree(m1, m2, at(nb, 8), t, at(src, 8), 40);
    lemma_same_number(m1, m2, at(nb, 48));
    if configures_engines(t, src) {
        lemma_mirrors_agree(m1, m2, ob, t, csrc, 16);
        lemma_same_number(m1, m2, at(ob, 16));
        lemma_mirrors_agree(m1, m2, at(ob, 24), t, at(csrc, 24), c.outer.size - 24);
        lemma_same_number(m1, m2, ib);
        lemma_mirrors_agree(
            m1,
            m2,
            at(ib, 8),
            t,
            at(engines_at(t, src), 8),
            c.inner.size - 8,
        );
        lemma_chain_agrees(m1, m2, u64_at(m1, ib), c.engines, t, first_engine(t, src));
    } else {
        lemma_mirrors_agree(m1, m2, ob, t, csrc, c.outer.size as int);
    }
}

/// Two memories in which the same copies hold, built and filled, hold the
/// same bytes in their blocks.
pub proof fn lemma_cells_agree(
    m1: Bytes,
    m2: Bytes,
    first: u64,
    cells: Seq<Cell>,
    t: Bytes,
    src: u64,
    fuel: nat,
)
    requires
        cells_hold(m1, first, cells, t, src, fuel, true),
        cells_hold(m2, first, cells, t, src, fuel, true),
    ensures
        forall|a: u64| in_cells(cells, a) ==> byte_at(m1, a) == byte_at(m2, a),
    decreases fuel,
{
    if src != 0 {
        let c = cells[0];
        let rest = cells.drop_first();
        let next = u64_at(t, src);
        let next1 = u64_at(m1, first);
        let next2 = u64_at(m2, first);
        assert(cells_hold(m1, next1, rest, t, next, (fuel - 1) as nat, true));
        assert(cells_hold(m2, next2, rest, t, next, (fuel - 1) as nat, true));
        assert(next1 == next2) by {
            if next != 0 {
                assert(next1 == rest[0].node.ptr && next2 == rest[0].node.ptr);
            } else {
                assert(next1 == 0 && next2 == 0);
            }
        }
        lemma_cell_agrees(c, m1, m2, t, src);
        lemma_cells_agree(m1, m2, next1, rest, t, next, (fuel - 1) as nat);
        assert forall|a: u64| in_cells(cells, a) implies byte_at(m1, a) == byte_at(m2, a) by {
            lemma_in_later_cells(cells, a);
        }
    }
}

/// Copies that are built and filled are built.
pub proof fn lemma_cells_built(
    m: Bytes,
    first: u64,
    cells: Seq<Cell>,
    t: Bytes,
    src: u64,
    fuel: nat,
)
    requires
        cells_hold(m, first, cells, t, src, fuel, true),
    ensures
        cells_hold(m, first, cells, t, src, fuel, false),
    decreases fuel,
{
    if src != 0 {
        lemma_cells_built(
            m,
            u64_at(m, first),
            cells.drop_first(),
            t,
            u64_at(t, src),
            (fuel - 1) as nat,
        );
    }
}

/// Walking the chain of a context that was already copied copies it to the
/// same image: the second copy ends as the first did and changes no byte.
pub proof fn lemma_context_chain_copied_twice(
    d: Bytes,
    slot: u64,
    cells: Seq<Cell>,
    t: Bytes,
    src: u64,
    fuel: nat,
)
    requires
        cells_hold(d, u64_at(d, slot), cells, t, src, fuel, false),
        cells_disjoint(cells),
        forall|a: u64| within(slot, 8, a) ==> !in_cells(cells, a),
    ensures
        ({
            let (r, once) = drm_i915_gem_context_create_ext::chain_copied(d, slot, t, src, fuel);
            let (again, twice) = drm_i915_gem_context_create_ext::chain_copied(
                once,
                slot,
                t,
                src,
                fuel,
            );
            again == r && same_bytes(twice, once)
        }),
{
    let first = u64_at(d, slot);
    lemma_cells_copied_out(d, slot, cells, t, src, fuel);
    let once = drm_i915_gem_context_create_ext::chain_copied(d, slot, t, src, fuel).1;
    lemma_cells_built(once, first, cells, t, src, fuel);
    lemma_cells_copied_out(once, slot, cells, t, src, fuel);
    let twice = drm_i915_gem_context_create_ext::chain_copied(once, slot, t, src, fuel).1;
    lemma_cells_agree(twice, once, first, cells, t, src, fuel);
    let r = drm_i915_gem_context_create_ext::chain_copied(d, slot, t, src, fuel).0;
    let again = drm_i915_gem_context_create_ext::chain_copied(once, slot, t, src, fuel).0;
    assert(r == Ok::<(), Error>(()) && again == Ok::<(), Error>(())) by {
        assert(r->Ok_0 == () && again->Ok_0 == ());
    }
}

/// The copy from copies that are built and filled ends well, wherever it
/// copies to.
pub proof fn lemma_cells_copied_ok(
    d: Bytes,
    slot: u64,
    m: Bytes,
    first: u64,
    cells: Seq<Cell>,
    t: Bytes,
    src: u64,
    fuel: nat,
)
    requires
        cells_hold(m, first, cells, t, src, fuel, true),
    ensures
        drm_i915_gem_context_create_ext::chain_copied(d, slot, m, first, fuel).0 is Ok,
    decreases fuel,
{
    if src != 0 {
        reveal(drm_i915_gem_context_create_ext_setparam::copy_result);
        reveal(drm_i915_gem_context_param::copied_with);
        reveal(i915_context_param_engines::copy_result);
        let c = cells[0];
        let nb = c.node.ptr;
        let ob = c.outer.ptr;
        let ib = c.inner.ptr;
        let csrc = nested(t, src);
        lemma_mirrors_part(m, at(nb, 8), t, at(src, 8), 40, 0, 4);
        lemma_mirrors_part(m, at(nb, 8), t, at(src, 8), 40, 28, 4);
        lemma_mirrors_part(m, at(nb, 8), t, at(src, 8), 40, 32, 8);
        assert(at(at(nb, 8), 0) == at(nb, 8) && at(at(src, 8), 0) == at(src, 8));
        assert(at(at(nb, 8), 28) == at(nb, 36) && at(at(src, 8), 28) == at(src, 36));
        assert(at(at(nb, 8), 32) == at(nb, 40) && at(at(src, 8), 32) == at(src, 40));
        lemma_mirrors_u32(m, at(nb, 8), t, at(src, 8));
        lemma_mirrors_u32(m, at(nb, 36), t, at(src, 36));
        lemma_mirrors_u64(m, at(nb, 40), t, at(src, 40));
        let d1 = drm_i915_gem_context_create_ext::node_copied(d, slot, m, first).1;
        if configures_engines(t, src) {
            lemma_engines_sizer();
            lemma_mirrors_part(m, ob, t, csrc, 16, 4, 4);
            lemma_mirrors_u32(m, at(ob, 4), t, at(csrc, 4));
            lemma_bodies_sized(
                i915_context_param_engines::sizer(),
                m,
                c.engines,
                t,
                first_engine(t, src),
                CHAIN_LIMIT as nat,
            );
            let node = u64_at(d, slot);
            let e0 = i915_user_extension::header_copied(d, node, m, first);
            let e1 = copied(e0, at(node, 32), m, at(first, 32), 16);
            let moved = payload_copied(e1, at(node, 48), m, at(first, 48), c.outer.size);
            let to = u64_at(moved, at(node, 48));
            let e2 = with_u64(moved, at(to, 16), u64_at(e1, at(u64_at(e1, at(node, 48)), 16)));
            let e3 = copied(e2, to, m, ob, 16);
            let e4 = drm_i915_gem_context_param::value_copied(e3, to, m, ob, Value::Engines);
            lemma_chain_copied_ok(
                i915_context_param_engines::sizer(),
                e4,
                u64_at(e4, at(to, 16)),
                m,
                u64_at(m, ib),
                c.engines,
                CHAIN_LIMIT as nat,
            );
        }
        lemma_cells_copied_ok(
            d1,
            u64_at(d1, slot),
            m,
            u64_at(m, first),
            cells.drop_first(),
            t,
            u64_at(t, src),
            (fuel - 1) as nat,
        );
    }
}

/// What a copy that is built and filled holds where its extension holds the
/// name, the size and the parameter, and to what its pointers point: a chain
/// that is read in the copy is laid out well.
pub proof fn lemma_cell_reads(c: Cell, m: Bytes, t: Bytes, src: u64)
    requires
        c.shaped(t, src),
        c.apart(),
        c.built(m, t, src),
        c.filled(m, t, src),
    ensures
        u32_at(m, at(c.node.ptr, 8)) == u32_at(t, at(src, 8)),
        value_size(m, c.node.ptr) == value_size(t, src),
        configures_engines(m, c.node.ptr) == configures_engines(t, src),
        nested(m, c.node.ptr) == c.outer.ptr,
        configures_engines(t, src) ==> {
            &&& engines_size(m, c.node.ptr) == c.inner.size
            &&& engines_at(m, c.node.ptr) == c.inner.ptr
            &&& first_engine(m, c.node.ptr) == u64_at(m, c.inner.ptr)
        },
        well_laid(m, c.node.ptr),
{
    let nb = c.node.ptr;
    let ob = c.outer.ptr;
    lemma_mirrors_part(m, at(nb, 8), t, at(src, 8), 40, 0, 4);
    lemma_mirrors_part(m, at(nb, 8), t, at(src, 8), 40, 28, 4);
    lemma_mirrors_part(m, at(nb, 8), t, at(src, 8), 40, 32, 8);
    assert(at(at(nb, 8), 0) == at(nb, 8) && at(at(src, 8), 0) == at(src, 8));
    assert(at(at(nb, 8), 28) == at(nb, 36) && at(at(src, 8), 28) == at(src, 36));
    assert(at(at(nb, 8), 32) == at(nb, 40) && at(at(src, 8), 32) == at(src, 40));
    lemma_mirrors_u32(m, at(nb, 8), t, at(src, 8));
    lemma_mirrors_u32(m, at(nb, 36), t, at(src, 36));
    lemma_mirrors_u64(m, at(nb, 40), t, at(src, 40));
    if configures_engines(t, src) {
        lemma_mirrors_part(m, ob, t, nested(t, src), 16, 4, 4);
        lemma_mirrors_u32(m, at(ob, 4), t, at(nested(t, src), 4));
    }
}

/// A chain that is read in copies that are built and filled is laid out
/// well.
pub proof fn lemma_copy_well_laid(
    m: Bytes,
    first: u64,
    cells: Seq<Cell>,
    t: Bytes,
    src: u64,
    fuel: nat,
)
    requires
        cells_hold(m, first, cells, t, src, fuel, true),
    ensures
        chain_well_laid(m, first, fuel),
    decreases fuel,
{
    if src != 0 {
        lemma_cell_reads(cells[0], m, t, src);
        lemma_copy_well_laid(
            m,
            u64_at(m, first),
            cells.drop_first(),
            t,
            u64_at(t, src),
            (fuel - 1) as nat,
        );
    }
}

/// Whether the copy `c2` in `m2` is what the copy `c1` in `m1` is: its
/// blocks are as long, and hold the same bytes but for the addresses of the
/// next extension, of the values and of the first engine extension.
pub open spec fn cell_alike(m2: Bytes, c2: Cell, m1: Bytes, c1: Cell) -> bool {
    &&& c2.node.size == c1.node.size
    &&& c2.outer.size == c1.outer.size
    &&& c2.inner.size == c1.inner.size
    &&& mirrors(m2, at(c2.node.ptr, 8), m1, at(c1.node.ptr, 8), 40)
    &&& if c1.inner.size > 0 {
        &&& mirrors(m2, c2.outer.ptr, m1, c1.outer.ptr, 16)
        &&& mirrors(m2, at(c2.outer.ptr, 24), m1, at(c1.outer.ptr, 24), c1.outer.size - 24)
        &&& mirrors(m2, at(c2.inner.ptr, 8), m1, at(c1.inner.ptr, 8), c1.inner.size - 8)
        &&& chains_alike(m2, c2.engines, m1, c1.engines)
    } else {
        mirrors(m2, c2.outer.ptr, m1, c1.outer.ptr, c1.outer.size as int)
    }
}

/// Whether the copies `cells2` in `m2` are, one by one, what the copies
/// `cells1` in `m1` are.
pub open spec fn cells_alike(m2: Bytes, cells2: Seq<Cell>, m1: Bytes, cells1: Seq<Cell>) -> bool {
    &&& cells2.len() == cells1.len()
    &&& forall|k: int| 0 <= k < cells1.len() ==> cell_alike(m2, #[trigger] cells2[k], m1, cells1[k])
}

/// Copies that are built and filled after a chain which itself lies in
/// copies that are built and filled are, one by one, what those copies are.
pub proof fn lemma_cells_alike(
    m2: Bytes,
    first2: u64,
    cells2: Seq<Cell>,
    m1: Bytes,
    first1: u64,
    cells1: Seq<Cell>,
    t: Bytes,
    src: u64,
    fuel: nat,
)
    requires
        cells_hold(m1, first1, cells1, t, src, fuel, true),
        cells_hold(m2, first2, cells2, m1, first1, fuel, true),
    ensures
        cells_alike(m2, cells2, m1, cells1),
    decreases fuel,
{
    if src != 0 {
        let c1 = cells1[0];
        let c2 = cells2[0];
        let r1 = cells1.drop_first();
        let r2 = cells2.drop_first();
        lemma_cell_reads(c1, m1, t, src);
        if configures_engines(t, src) {
            lemma_engines_sizer();
            lemma_bodies_sized(
                i915_context_param_engines::sizer(),
                m1,
                c1.engines,
                t,
                first_engine(t, src),
                CHAIN_LIMIT as nat,
            );
            lemma_chains_alike(
                i915_context_param_engines::sizer(),
                m2,
                c2.engines,
                m1,
                u64_at(m1, c1.inner.ptr),
                c1.engines,
                CHAIN_LIMIT as nat,
            );
        }
        assert(cell_alike(m2, c2, m1, c1));
        lemma_cells_alike(
            m2,
            u64_at(m2, first2),
            r2,
            m1,
            u64_at(m1, first1),
            r1,
            t,
            u64_at(t, src),
            (fuel - 1) as nat,
        );
        assert forall|k: int| 0 <= k < cells1.len() implies cell_alike(
            m2,
            #[trigger] cells2[k],
            m1,
            cells1[k],
        ) by {
            if k > 0 {
                assert(cells2[k] == r2[k - 1] && cells1[k] == r1[k - 1]);
            }
        }
    }
}

/// Walking the chain of a context that is itself the copy of a chain and
/// mirroring it into new blocks gives copies that are, one by one, what the
/// copies of the first chain are, but for the addresses that the copies
/// hold; the walk ends well, and no byte changes outside the new pointer and
/// the new blocks, which share no byte with a block that the call held.
pub proof fn lemma_context_chain_reserialised(
    before: Seq<Arena>,
    blocks: Set<Holding>,
    arenas: Seq<Arena>,
    m1: Bytes,
    first1: u64,
    cells1: Seq<Cell>,
    t: Bytes,
    src: u64,
    slot: u64,
    home: Holding,
    fuel: nat,
) -> (cells2: Seq<Cell>)
    requires
        cells_hold(m1, first1, cells1, t, src, fuel, true),
        holding(before, arenas, blocks),
        blocks.contains(home),
        home.ptr <= slot,
        slot + 8 <= home.ptr + home.size,
        drm_i915_gem_context_create_ext::chain_allocated(
            ShadowView { arenas, bytes: with_u64(m1, slot, 0) },
            slot,
            m1,
            first1,
            fuel,
        ).0 is Ok,
    ensures
        ({
            let h2 = drm_i915_gem_context_create_ext::chain_allocated(
                ShadowView { arenas, bytes: with_u64(m1, slot, 0) },
                slot,
                m1,
                first1,
                fuel,
            ).1;
            let (r, m2) = drm_i915_gem_context_create_ext::chain_copied(
                h2.bytes,
                slot,
                m1,
                first1,
                fuel,
            );
            &&& r is Ok
            &&& cells_alike(m2, cells2, m1, cells1)
            &&& forall|b: Holding, a: u64|
                #![trigger blocks.contains(b), within(b.ptr, b.size as int, a)]
                blocks.contains(b) && within(b.ptr, b.size as int, a) ==> !in_cells(cells2, a)
            &&& forall|a: u64|
                !within(slot, 8, a) && !in_cells(cells2, a) ==> byte_at(m2, a) == byte_at(m1, a)
        }),
{
    let h = ShadowView { arenas, bytes: with_u64(m1, slot, 0) };
    lemma_with_u64(m1, slot, 0);
    lemma_held_range(before, arenas, blocks, home);
    lemma_copy_well_laid(m1, first1, cells1, t, src, fuel);
    let cells2 = lemma_cells_allocated(before, blocks, h, slot, m1, first1, fuel, home);
    let h2 = drm_i915_gem_context_create_ext::chain_allocated(h, slot, m1, first1, fuel).1;
    assert forall|a: u64| within(slot, 8, a) implies !in_cells(cells2, a) by {
        assert(within(home.ptr, home.size as int, a));
    }
    lemma_cells_copied_out(h2.bytes, slot, cells2, m1, first1, fuel);
    let m2 = drm_i915_gem_context_create_ext::chain_copied(h2.bytes, slot, m1, first1, fuel).1;
    lemma_cells_alike(m2, u64_at(h2.bytes, slot), cells2, m1, first1, cells1, t, src, fuel);
    cells2
}

} // verus!
