//! Creation and destruction of an address space with a driver that leaves
//! the copy of the argument as it finds it.

use vstd::prelude::*;
use crate::buddy_alloc::Arena;
use crate::error::Error;
use crate::holdings::{Holding, grant, holding, lemma_held_range};
use crate::i915::chain::CHAIN_LIMIT;
use crate::i915::loopback::{
    begun, comes_back, gives_back, lemma_exec2_comes_back, lemma_exec2_gives_back, lemma_root_held,
};
use crate::i915::loopback_chains::{
    bodies, chain_grants, in_bodies, in_links, lemma_bodies_sized, lemma_chain_allocated,
    lemma_chain_copied_back, lemma_chain_copied_out, lemma_chain_freed, lemma_clear_of_part,
    lemma_linked_reaches, lemma_reaches_kept, linked, reaches, reads_body, sizes_hold_header,
};
use crate::i915::vm::drm_i915_gem_vm_control;
use crate::i915::{Deep, exec2_finished, exec2_result};
use crate::memory::{same_blocks, same_free, sound};
use crate::shadow::ShadowView;
use crate::space::{
    Bytes, at, byte_at, clear, copied, lemma_copied_byte, lemma_kept_u64, lemma_mirrors_back,
    lemma_mirrors_copied, lemma_mirrors_framed, lemma_mirrors_part, lemma_mirrors_u32,
    lemma_with_u64, mirrors, same_bytes, u64_at, with_u64, within,
};

verus! {

/// The size of an extension of an address space is read off its body, and
/// holds a header.
pub proof fn lemma_vm_sizer()
    ensures
        sizes_hold_header(drm_i915_gem_vm_control::sizer()),
        reads_body(drm_i915_gem_vm_control::sizer()),
{
    let size_of = drm_i915_gem_vm_control::sizer();
    assert forall|m: Bytes, v: u64, t: Bytes, x: u64, size: usize|
        #![trigger size_of(m, v), size_of(t, x), mirrors(m, at(v, 8), t, at(x, 8), size - 8)]
        size_of(t, x) == Ok::<usize, Error>(size) && mirrors(
            m,
            at(v, 8),
            t,
            at(x, 8),
            size - 8,
        ) implies size_of(m, v) == Ok::<usize, Error>(size) by {
        lemma_mirrors_part(m, at(v, 8), t, at(x, 8), size - 8, 0, 4);
        assert(at(at(v, 8), 0) == at(v, 8) && at(at(x, 8), 0) == at(x, 8));
        lemma_mirrors_u32(m, at(v, 8), t, at(x, 8));
    }
}

/// The creation or destruction of an address space comes back and gives
/// back.
pub proof fn lemma_vm_comes_back(before: Seq<Arena>, h: ShadowView, t: Bytes, arg: u64, root: Holding)
    requires
        holding(before, h.arenas, set![root]),
        root.size == 16,
    ensures
        comes_back(Deep::VmControl, h, t, arg, root.ptr),
        gives_back(Deep::VmControl, before, h, t, arg, root),
{
    reveal(Deep::allocated);
    reveal(Deep::copy_result);
    reveal(Deep::freed);
    reveal(drm_i915_gem_vm_control::allocated);
    reveal(drm_i915_gem_vm_control::copy_result);
    reveal(drm_i915_gem_vm_control::freed);
    let p = root.ptr;
    let size_of = drm_i915_gem_vm_control::sizer();
    let x0 = u64_at(t, arg);
    let fuel = CHAIN_LIMIT as nat;
    if drm_i915_gem_vm_control::allocated(h, p, t, arg).0 is Ok {
        lemma_vm_sizer();
        assert(set![root].contains(root));
        lemma_held_range(before, h.arenas, set![root], root);
        let h0 = ShadowView { arenas: h.arenas, bytes: with_u64(h.bytes, p, 0) };
        lemma_with_u64(h.bytes, p, 0);
        lemma_chain_allocated(size_of, before, set![root], h0, p, t, x0, fuel, root);
        let nodes = chain_grants(size_of, h.arenas, t, x0, fuel);
        let h1 = drm_i915_gem_vm_control::allocated(h, p, t, arg).1;
        lemma_linked_reaches(h1.bytes, p, nodes);
        lemma_vm_mirrored(h1.bytes, p, nodes, t, arg);
        let m = drm_i915_gem_vm_control::copy_result(h1.bytes, p, t, arg).1;
        lemma_mirrors_back(t, t, at(arg, 8), m, at(p, 8), 8);
        let near = copied(t, at(arg, 8), m, at(p, 8), 8);
        lemma_chain_copied_back(size_of, near, t, arg, m, u64_at(m, p), nodes, fuel);
        lemma_bodies_sized(size_of, m, nodes, t, x0, fuel);
        lemma_chain_freed(
            size_of,
            before,
            set![root],
            ShadowView { arenas: h1.arenas, bytes: m },
            u64_at(m, p),
            nodes,
            fuel,
        );
    }
}

/// The copy of the argument of an address space after the first half: it
/// mirrors the scalar fields of the argument and begins the chain of its
/// blocks, whose bodies mirror the extensions of the argument.
pub proof fn lemma_vm_mirrored(b: Bytes, p: u64, nodes: Seq<Holding>, t: Bytes, arg: u64)
    requires
        p + 16 <= 0x1_0000_0000_0000_0000,
        linked(b, p, nodes),
        crate::i915::loopback_chains::matches_source(
            drm_i915_gem_vm_control::sizer(),
            nodes,
            t,
            u64_at(t, arg),
            CHAIN_LIMIT as nat,
        ),
        crate::i915::loopback_chains::nodes_apart(nodes),
        crate::i915::loopback_chains::nodes_clear_of(nodes, p, 16),
    ensures
        ({
            let (r, m) = drm_i915_gem_vm_control::copy_result(b, p, t, arg);
            &&& r is Ok
            &&& mirrors(m, at(p, 8), t, at(arg, 8), 8)
            &&& reaches(m, u64_at(m, p), nodes)
            &&& bodies(m, nodes, t, u64_at(t, arg))
        }),
{
    reveal(drm_i915_gem_vm_control::copy_result);
    let size_of = drm_i915_gem_vm_control::sizer();
    let fuel = CHAIN_LIMIT as nat;
    let x0 = u64_at(t, arg);
    let d0 = copied(b, at(p, 8), t, at(arg, 8), 8);
    lemma_linked_reaches(b, p, nodes);
    lemma_kept_u64(b, at(p, 8), t, at(arg, 8), 8, p);
    lemma_mirrors_copied(b, at(p, 8), t, at(arg, 8), 8);
    assert forall|a: u64| in_links(nodes, a) implies byte_at(d0, a) == byte_at(b, a) by {
        let k = choose|k: int| 0 <= k < nodes.len() && within((#[trigger] nodes[k]).ptr, 8, a);
        assert(clear(nodes[k].ptr, nodes[k].size as int, p, 16));
        lemma_copied_byte(b, at(p, 8), t, at(arg, 8), 8, a);
    }
    lemma_reaches_kept(b, d0, u64_at(b, p), nodes);
    lemma_clear_of_part(nodes, p, 16, p, 8);
    assert(u64_at(d0, p) == (if nodes.len() > 0 {
        nodes[0].ptr
    } else {
        0
    }));
    lemma_chain_copied_out(size_of, d0, p, nodes, t, x0, fuel);
    let m = crate::i915::chain::plain_chain_copied(size_of, d0, p, t, x0, fuel).1;
    assert forall|a: u64| within(at(p, 8), 8, a) implies byte_at(m, a) == byte_at(d0, a) by {
        if in_bodies(nodes, a) {
            let k = choose|k: int|
                0 <= k < nodes.len() && within((#[trigger] nodes[k]).ptr, nodes[k].size as int, a)
                    && !within(nodes[k].ptr, 8, a);
            assert(clear(nodes[k].ptr, nodes[k].size as int, p, 16));
        }
    }
    lemma_mirrors_framed(d0, m, at(p, 8), t, at(arg, 8), 8);
}

/// The creation or destruction of an address space whose driver leaves the
/// copy of the argument alone leaves the trusted memory as it was, and gives
/// back all that it allocated.
pub proof fn lemma_vm_loopback(h: ShadowView, t: Bytes, arg: u64)
    requires
        sound(h.arenas),
        exec2_result(Deep::VmControl, h, t, arg).0 is Ok,
    ensures
        ({
            let (ptr, shadow) = exec2_result(Deep::VmControl, h, t, arg);
            let (done, back, after) = exec2_finished(Deep::VmControl, t, arg, shadow, ptr->Ok_0);
            &&& done is Ok
            &&& same_bytes(back, t)
            &&& sound(after.arenas)
            &&& same_free(after.arenas, h.arenas)
            &&& same_blocks(after.arenas, h.arenas)
        }),
{
    let kind = Deep::VmControl;
    lemma_root_held(kind, h);
    lemma_vm_comes_back(h.arenas, begun(kind, h), t, arg, grant(h.arenas, kind.size()));
    lemma_exec2_comes_back(kind, h, t, arg);
    lemma_exec2_gives_back(kind, h, t, arg);
}

} // verus!
