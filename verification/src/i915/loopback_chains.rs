//! Chains of extensions that are copied whole, with a driver that leaves the
//! copy as it finds it.
//!
//! The alloc phase builds a chain of new blocks, each linked to the one
//! before; the copy out fills their bodies; the copy back finds in them what
//! the trusted chain holds; and the free phase walks the chain and gives
//! every block back.

use vstd::prelude::*;
use crate::buddy_alloc::Arena;
use crate::error::Error;
use crate::holdings::{
    Holding, grant, holding, lemma_buffer_joins, lemma_buffer_leaves, lemma_held_range,
};
use crate::i915::chain::{
    SizeOf, lemma_whole_copied, plain_chain_allocated, plain_chain_copied, plain_chain_freed,
    plain_node_allocated, whole_copied,
};
use crate::memory::{allocation, released};
use crate::shadow::ShadowView;
use crate::space::{
    Bytes, at, byte_at, clear, lemma_mirrors_agree, lemma_put_kept_u64, lemma_same_number,
    lemma_same_u64, lemma_with_u64, mirrors, offset, same_bytes, u64_at, with_u64, within,
};

verus! {

/// Whether every size that `size_of` reads is that of a header at least.
pub open spec fn sizes_hold_header(size_of: SizeOf) -> bool {
    forall|m: Bytes, a: u64| (#[trigger] size_of(m, a)) matches Ok(size) ==> size >= 8
}

/// The blocks that the alloc phase of a chain is given, one for every
/// extension of the source, until the chain of the source ends or a step
/// fails.
pub open spec fn chain_grants(size_of: SizeOf, now: Seq<Arena>, t: Bytes, src: u64, fuel: nat) -> Seq<
    Holding,
>
    decreases fuel,
{
    if src == 0 || fuel == 0 {
        Seq::empty()
    } else {
        match size_of(t, src) {
            Err(_) => Seq::empty(),
            Ok(size) => if allocation(now, size).0 is Err {
                Seq::empty()
            } else {
                seq![grant(now, size)].add(
                    chain_grants(
                        size_of,
                        allocation(now, size).1,
                        t,
                        u64_at(t, src),
                        (fuel - 1) as nat,
                    ),
                )
            },
        }
    }
}

/// Whether the pointer at `slot` of `m` begins the chain of the blocks
/// `nodes`: it points to the first, every block points to the next, and the
/// last one ends the chain.
pub open spec fn linked(m: Bytes, slot: u64, nodes: Seq<Holding>) -> bool
    decreases nodes.len(),
{
    if nodes.len() == 0 {
        u64_at(m, slot) == 0
    } else {
        u64_at(m, slot) == nodes[0].ptr && linked(m, nodes[0].ptr, nodes.drop_first())
    }
}

/// Whether `a` is a byte of one of the blocks `nodes`.
pub open spec fn in_nodes(nodes: Seq<Holding>, a: u64) -> bool {
    exists|k: int| 0 <= k < nodes.len() && within((#[trigger] nodes[k]).ptr, nodes[k].size as int, a)
}

/// Whether every block of `nodes` lies clear of the `len` bytes from `base`.
pub open spec fn nodes_clear_of(nodes: Seq<Holding>, base: u64, len: int) -> bool {
    forall|k: int|
        0 <= k < nodes.len() ==> clear((#[trigger] nodes[k]).ptr, nodes[k].size as int, base, len)
}

/// Whether the blocks `nodes` lie clear of each other, hold a header each,
/// and begin after address zero.
pub open spec fn nodes_apart(nodes: Seq<Holding>) -> bool {
    &&& forall|k: int|
        0 <= k < nodes.len() ==> (#[trigger] nodes[k]).size >= 8 && nodes[k].ptr > 0
            && nodes[k].ptr + nodes[k].size <= usize::MAX
    &&& forall|j: int, k: int|
        0 <= j < k < nodes.len() ==> clear(
            (#[trigger] nodes[j]).ptr,
            nodes[j].size as int,
            (#[trigger] nodes[k]).ptr,
            nodes[k].size as int,
        )
}

/// Whether the blocks `nodes` are as many as the extensions of the chain of
/// the source from `src` on, and as long, and the chain of the source ends
/// within `fuel` extensions.
pub open spec fn matches_source(size_of: SizeOf, nodes: Seq<Holding>, t: Bytes, src: u64, fuel: nat) -> bool
    decreases fuel,
{
    if src == 0 {
        nodes.len() == 0
    } else {
        &&& fuel > 0
        &&& nodes.len() > 0
        &&& size_of(t, src) == Ok::<usize, Error>(nodes[0].size)
        &&& matches_source(size_of, nodes.drop_first(), t, u64_at(t, src), (fuel - 1) as nat)
    }
}

/// Whether the memories `m1` and `m2` hold the same bytes outside the pointer
/// at `slot` and the blocks `nodes`.
pub open spec fn same_outside(m1: Bytes, m2: Bytes, slot: u64, nodes: Seq<Holding>) -> bool {
    forall|a: u64|
        !within(slot, 8, a) && !in_nodes(nodes, a) ==> byte_at(m1, a) == byte_at(m2, a)
}

/// A byte of one of the later blocks of a chain is a byte of one of its
/// blocks.
pub proof fn lemma_in_later_nodes(nodes: Seq<Holding>, a: u64)
    requires
        nodes.len() > 0,
    ensures
        in_nodes(nodes, a) <==> within(nodes[0].ptr, nodes[0].size as int, a) || in_nodes(
            nodes.drop_first(),
            a,
        ),
{
    let rest = nodes.drop_first();
    if in_nodes(nodes, a) {
        let k = choose|k: int|
            0 <= k < nodes.len() && within((#[trigger] nodes[k]).ptr, nodes[k].size as int, a);
        if k > 0 {
            assert(rest[k - 1] == nodes[k]);
        }
    }
    if in_nodes(rest, a) {
        let k = choose|k: int|
            0 <= k < rest.len() && within((#[trigger] rest[k]).ptr, rest[k].size as int, a);
        assert(nodes[k + 1] == rest[k]);
    }
}

/// What the alloc phase of a chain does, for a pointer that lies in a block
/// that the call holds and that ends a chain: the call holds a new block for
/// every extension of the source; the blocks lie clear of what the call held
/// and of each other; the pointer begins their chain; and no byte changes
/// outside the pointer and the new blocks.
pub proof fn lemma_chain_allocated(
    size_of: SizeOf,
    before: Seq<Arena>,
    blocks: Set<Holding>,
    h: ShadowView,
    slot: u64,
    t: Bytes,
    src: u64,
    fuel: nat,
    home: Holding,
)
    requires
        sizes_hold_header(size_of),
        holding(before, h.arenas, blocks),
        blocks.contains(home),
        home.ptr <= slot,
        slot + 8 <= home.ptr + home.size,
        u64_at(h.bytes, slot) == 0,
        plain_chain_allocated(size_of, h, slot, t, src, fuel).0 is Ok,
    ensures
        ({
            let nodes = chain_grants(size_of, h.arenas, t, src, fuel);
            let after = plain_chain_allocated(size_of, h, slot, t, src, fuel).1;
            &&& holding(before, after.arenas, blocks.union(nodes.to_set()))
            &&& forall|k: int| 0 <= k < nodes.len() ==> !blocks.contains(#[trigger] nodes[k])
            &&& forall|b: Holding| #[trigger]
                blocks.contains(b) ==> nodes_clear_of(nodes, b.ptr, b.size as int)
            &&& nodes_apart(nodes)
            &&& matches_source(size_of, nodes, t, src, fuel)
            &&& linked(after.bytes, slot, nodes)
            &&& same_outside(after.bytes, h.bytes, slot, nodes)
        }),
    decreases fuel,
{
    let nodes = chain_grants(size_of, h.arenas, t, src, fuel);
    let after = plain_chain_allocated(size_of, h, slot, t, src, fuel).1;
    if src == 0 {
        assert(blocks.union(nodes.to_set()) =~= blocks);
    } else {
        let size = size_of(t, src)->Ok_0;
        let g = grant(h.arenas, size);
        let v = g.ptr;
        let a1 = allocation(h.arenas, size).1;
        let b1 = with_u64(h.bytes, slot, v);
        let b2 = with_u64(b1, v, 0);
        lemma_held_range(before, h.arenas, blocks, home);
        lemma_buffer_joins(before, h.arenas, blocks, size);
        let blocks1 = blocks.insert(g);
        lemma_held_range(before, a1, blocks1, g);
        lemma_with_u64(h.bytes, slot, v);
        lemma_with_u64(b1, v, 0);
        assert(clear(v, size as int, home.ptr, home.size as int));
        lemma_put_kept_u64(b1, v, 0, slot);
        let h1 = ShadowView { arenas: a1, bytes: b2 };
        assert(plain_node_allocated(size_of, h, slot, t, src) == (Ok::<(), Error>(()), h1));
        let next = u64_at(t, src);
        let rest = chain_grants(size_of, a1, t, next, (fuel - 1) as nat);
        lemma_chain_allocated(size_of, before, blocks1, h1, v, t, next, (fuel - 1) as nat, g);
        assert(nodes == seq![g].add(rest));
        assert(nodes.drop_first() =~= rest);
        assert(nodes[0] == g);
        assert(blocks.union(nodes.to_set()) =~= blocks1.union(rest.to_set())) by {
            assert forall|b: Holding| blocks.union(nodes.to_set()).contains(b) <==> blocks1.union(
                rest.to_set(),
            ).contains(b) by {
                if nodes.to_set().contains(b) {
                    let k = choose|k: int| 0 <= k < nodes.len() && nodes[k] == b;
                    if k > 0 {
                        assert(rest[k - 1] == b);
                    }
                }
                if rest.to_set().contains(b) {
                    let k = choose|k: int| 0 <= k < rest.len() && rest[k] == b;
                    assert(nodes[k + 1] == b);
                }
                if b == g {
                    assert(nodes[0] == b);
                }
            }
        }
        assert forall|k: int| 0 <= k < nodes.len() implies !blocks.contains(#[trigger] nodes[k]) by {
            if k > 0 {
                assert(nodes[k] == rest[k - 1]);
                assert(!blocks1.contains(rest[k - 1]));
            }
        }
        assert forall|b: Holding| #[trigger] blocks.contains(b) implies nodes_clear_of(
            nodes,
            b.ptr,
            b.size as int,
        ) by {
            assert(blocks1.contains(b));
            assert(nodes_clear_of(rest, b.ptr, b.size as int));
            assert forall|k: int| 0 <= k < nodes.len() implies clear(
                (#[trigger] nodes[k]).ptr,
                nodes[k].size as int,
                b.ptr,
                b.size as int,
            ) by {
                if k > 0 {
                    assert(nodes[k] == rest[k - 1]);
                }
            }
        }
        assert(nodes_apart(nodes)) by {
            assert(blocks1.contains(g));
            assert(nodes_clear_of(rest, g.ptr, g.size as int));
            assert forall|k: int| 0 <= k < nodes.len() implies (#[trigger] nodes[k]).size >= 8
                && nodes[k].ptr > 0 && nodes[k].ptr + nodes[k].size <= usize::MAX by {
                if k > 0 {
                    assert(nodes[k] == rest[k - 1]);
                }
            }
            assert forall|j: int, k: int| 0 <= j < k < nodes.len() implies clear(
                (#[trigger] nodes[j]).ptr,
                nodes[j].size as int,
                (#[trigger] nodes[k]).ptr,
                nodes[k].size as int,
            ) by {
                assert(nodes[k] == rest[k - 1]);
                if j > 0 {
                    assert(nodes[j] == rest[j - 1]);
                }
            }
        }
        assert(blocks1.contains(home));
        assert(nodes_clear_of(rest, home.ptr, home.size as int));
        assert forall|a: u64| within(slot, 8, a) implies byte_at(after.bytes, a) == byte_at(
            b2,
            a,
        ) by {
            if in_nodes(rest, a) {
                let k = choose|k: int|
                    0 <= k < rest.len() && within((#[trigger] rest[k]).ptr, rest[k].size as int, a);
                assert(clear(rest[k].ptr, rest[k].size as int, home.ptr, home.size as int));
            }
        }
        lemma_same_u64(after.bytes, b2, slot);
        assert forall|a: u64| !within(slot, 8, a) && !in_nodes(nodes, a) implies byte_at(
            after.bytes,
            a,
        ) == byte_at(h.bytes, a) by {
            lemma_in_later_nodes(nodes, a);
        }
    }
}

/// Whether the bodies of the blocks `nodes` in `m` mirror the bodies of the
/// extensions of the chain of the source from `src` on.
pub open spec fn bodies(m: Bytes, nodes: Seq<Holding>, t: Bytes, src: u64) -> bool
    decreases nodes.len(),
{
    nodes.len() == 0 || (mirrors(m, at(nodes[0].ptr, 8), t, at(src, 8), nodes[0].size - 8)
        && bodies(m, nodes.drop_first(), t, u64_at(t, src)))
}

/// Whether `a` is a byte of the body of one of the blocks `nodes`.
pub open spec fn in_bodies(nodes: Seq<Holding>, a: u64) -> bool {
    exists|k: int|
        0 <= k < nodes.len() && within((#[trigger] nodes[k]).ptr, nodes[k].size as int, a)
            && !within(nodes[k].ptr, 8, a)
}

/// Whether the chain that begins with the extension at `first` in `m` is the
/// chain of the blocks `nodes`.
pub open spec fn reaches(m: Bytes, first: u64, nodes: Seq<Holding>) -> bool
    decreases nodes.len(),
{
    if nodes.len() == 0 {
        first == 0
    } else {
        first == nodes[0].ptr && reaches(m, u64_at(m, nodes[0].ptr), nodes.drop_first())
    }
}

/// A pointer that begins the chain of some blocks reaches them.
pub proof fn lemma_linked_reaches(m: Bytes, slot: u64, nodes: Seq<Holding>)
    requires
        linked(m, slot, nodes),
    ensures
        reaches(m, u64_at(m, slot), nodes),
    decreases nodes.len(),
{
    if nodes.len() > 0 {
        lemma_linked_reaches(m, nodes[0].ptr, nodes.drop_first());
    }
}

/// A byte of the body of one of the later blocks of a chain is a byte of the
/// body of one of its blocks.
pub proof fn lemma_in_later_bodies(nodes: Seq<Holding>, a: u64)
    requires
        nodes.len() > 0,
    ensures
        in_bodies(nodes, a) <==> (within(nodes[0].ptr, nodes[0].size as int, a) && !within(
            nodes[0].ptr,
            8,
            a,
        )) || in_bodies(nodes.drop_first(), a),
{
    let rest = nodes.drop_first();
    if in_bodies(nodes, a) {
        let k = choose|k: int|
            0 <= k < nodes.len() && within((#[trigger] nodes[k]).ptr, nodes[k].size as int, a)
                && !within(nodes[k].ptr, 8, a);
        if k > 0 {
            assert(rest[k - 1] == nodes[k]);
        }
    }
    if in_bodies(rest, a) {
        let k = choose|k: int|
            0 <= k < rest.len() && within((#[trigger] rest[k]).ptr, rest[k].size as int, a)
                && !within(rest[k].ptr, 8, a);
        assert(nodes[k + 1] == rest[k]);
    }
}

/// The later blocks of a chain of blocks that lie clear of each other lie
/// clear of each other and of the first.
pub proof fn lemma_later_apart(nodes: Seq<Holding>)
    requires
        nodes.len() > 0,
        nodes_apart(nodes),
    ensures
        nodes_apart(nodes.drop_first()),
        nodes_clear_of(nodes.drop_first(), nodes[0].ptr, nodes[0].size as int),
        nodes[0].size >= 8,
        nodes[0].ptr > 0,
        nodes[0].ptr + nodes[0].size <= usize::MAX,
{
    let rest = nodes.drop_first();
    assert forall|k: int| 0 <= k < rest.len() implies (#[trigger] rest[k]).size >= 8 && rest[k].ptr
        > 0 && rest[k].ptr + rest[k].size <= usize::MAX by {
        assert(rest[k] == nodes[k + 1]);
    }
    assert forall|j: int, k: int| 0 <= j < k < rest.len() implies clear(
        (#[trigger] rest[j]).ptr,
        rest[j].size as int,
        (#[trigger] rest[k]).ptr,
        rest[k].size as int,
    ) by {
        assert(rest[j] == nodes[j + 1]);
        assert(rest[k] == nodes[k + 1]);
    }
    assert forall|k: int| 0 <= k < rest.len() implies clear(
        (#[trigger] rest[k]).ptr,
        rest[k].size as int,
        nodes[0].ptr,
        nodes[0].size as int,
    ) by {
        assert(rest[k] == nodes[k + 1]);
        assert(clear(nodes[0].ptr, nodes[0].size as int, nodes[k + 1].ptr, nodes[k + 1].size as int));
    }
}

/// Blocks that lie clear of a range lie clear of every part of it.
pub proof fn lemma_clear_of_part(nodes: Seq<Holding>, base: u64, len: int, part: u64, n: int)
    requires
        nodes_clear_of(nodes, base, len),
        base <= part,
        part + n <= base + len,
        0 <= n,
    ensures
        nodes_clear_of(nodes, part, n),
{
    assert forall|k: int| 0 <= k < nodes.len() implies clear(
        (#[trigger] nodes[k]).ptr,
        nodes[k].size as int,
        part,
        n,
    ) by {
        assert(clear(nodes[k].ptr, nodes[k].size as int, base, len));
    }
}

/// The later blocks of a chain lie clear of what the chain lies clear of.
pub proof fn lemma_later_clear_of(nodes: Seq<Holding>, base: u64, len: int)
    requires
        nodes.len() > 0,
        nodes_clear_of(nodes, base, len),
    ensures
        nodes_clear_of(nodes.drop_first(), base, len),
        clear(nodes[0].ptr, nodes[0].size as int, base, len),
{
    let rest = nodes.drop_first();
    assert forall|k: int| 0 <= k < rest.len() implies clear(
        (#[trigger] rest[k]).ptr,
        rest[k].size as int,
        base,
        len,
    ) by {
        assert(rest[k] == nodes[k + 1]);
    }
}

/// Whether `a` is a byte of the pointer to the next extension of one of the
/// blocks `nodes`.
pub open spec fn in_links(nodes: Seq<Holding>, a: u64) -> bool {
    exists|k: int| 0 <= k < nodes.len() && within((#[trigger] nodes[k]).ptr, 8, a)
}

/// A chain stays what it is as long as no pointer of it changes.
pub proof fn lemma_reaches_kept(m: Bytes, n: Bytes, first: u64, nodes: Seq<Holding>)
    requires
        reaches(m, first, nodes),
        forall|a: u64| in_links(nodes, a) ==> byte_at(n, a) == byte_at(m, a),
    ensures
        reaches(n, first, nodes),
    decreases nodes.len(),
{
    if nodes.len() > 0 {
        let rest = nodes.drop_first();
        assert forall|a: u64| within(nodes[0].ptr, 8, a) implies byte_at(n, a) == byte_at(m, a) by {
            assert(in_links(nodes, a));
        }
        lemma_same_u64(n, m, nodes[0].ptr);
        assert forall|a: u64| in_links(rest, a) implies byte_at(n, a) == byte_at(m, a) by {
            let k = choose|k: int| 0 <= k < rest.len() && within((#[trigger] rest[k]).ptr, 8, a);
            assert(rest[k] == nodes[k + 1]);
            assert(in_links(nodes, a));
        }
        lemma_reaches_kept(m, n, u64_at(m, nodes[0].ptr), rest);
    }
}

/// The bodies of a chain mirror what they mirror as long as no byte of them
/// changes.
pub proof fn lemma_bodies_kept(m: Bytes, n: Bytes, nodes: Seq<Holding>, t: Bytes, src: u64)
    requires
        bodies(m, nodes, t, src),
        nodes_apart(nodes),
        forall|a: u64| in_bodies(nodes, a) ==> byte_at(n, a) == byte_at(m, a),
    ensures
        bodies(n, nodes, t, src),
    decreases nodes.len(),
{
    if nodes.len() > 0 {
        let rest = nodes.drop_first();
        let v = nodes[0].ptr;
        let size = nodes[0].size;
        lemma_later_apart(nodes);
        assert(mirrors(n, at(v, 8), t, at(src, 8), size - 8)) by {
            reveal(mirrors);
            assert forall|i: int| 0 <= i < size - 8 implies byte_at(n, #[trigger] at(at(v, 8), i))
                == byte_at(t, at(at(src, 8), i)) by {
                let a = at(at(v, 8), i);
                assert(within(v, size as int, a) && !within(v, 8, a));
                assert(in_bodies(nodes, a));
            }
        }
        assert forall|a: u64| in_bodies(rest, a) implies byte_at(n, a) == byte_at(m, a) by {
            lemma_in_later_bodies(nodes, a);
        }
        lemma_bodies_kept(m, n, rest, t, u64_at(t, src));
    }
}

/// What the copy out of a chain does, for a pointer that begins a chain of
/// blocks as many and as long as the extensions of the source: the blocks
/// stay linked as they are, their bodies mirror the bodies of the source,
/// and no byte changes outside their bodies.
pub proof fn lemma_chain_copied_out(
    size_of: SizeOf,
    d: Bytes,
    slot: u64,
    nodes: Seq<Holding>,
    t: Bytes,
    src: u64,
    fuel: nat,
)
    requires
        u64_at(d, slot) == (if nodes.len() > 0 {
            nodes[0].ptr
        } else {
            0
        }),
        reaches(d, u64_at(d, slot), nodes),
        matches_source(size_of, nodes, t, src, fuel),
        nodes_apart(nodes),
        nodes_clear_of(nodes, slot, 8),
    ensures
        ({
            let (r, after) = plain_chain_copied(size_of, d, slot, t, src, fuel);
            &&& r is Ok
            &&& u64_at(after, slot) == u64_at(d, slot)
            &&& reaches(after, u64_at(d, slot), nodes)
            &&& bodies(after, nodes, t, src)
            &&& forall|a: u64| !in_bodies(nodes, a) ==> byte_at(after, a) == byte_at(d, a)
        }),
    decreases fuel,
{
    if src != 0 {
        let rest = nodes.drop_first();
        let v = nodes[0].ptr;
        let size = nodes[0].size;
        let next = u64_at(t, src);
        lemma_later_apart(nodes);
        lemma_later_clear_of(nodes, slot, 8);
        let d1 = whole_copied(d, v, t, src, size as nat);
        assert forall|a: u64| !(within(v, size as int, a) && !within(v, 8, a)) implies byte_at(
            d1,
            a,
        ) == byte_at(d, a) by {
            lemma_whole_copied(d, v, t, src, size as nat, a);
        }
        lemma_same_u64(d1, d, slot);
        lemma_same_u64(d1, d, v);
        assert forall|a: u64| in_links(rest, a) implies byte_at(d1, a) == byte_at(d, a) by {
            let k = choose|k: int| 0 <= k < rest.len() && within((#[trigger] rest[k]).ptr, 8, a);
            assert(clear(rest[k].ptr, rest[k].size as int, v, size as int));
        }
        lemma_reaches_kept(d, d1, u64_at(d, v), rest);
        lemma_clear_of_part(rest, v, size as int, v, 8);
        assert(u64_at(d1, v) == (if rest.len() > 0 {
            rest[0].ptr
        } else {
            0
        }));
        lemma_chain_copied_out(size_of, d1, v, rest, t, next, (fuel - 1) as nat);
        let after = plain_chain_copied(size_of, d1, v, t, next, (fuel - 1) as nat).1;
        assert forall|a: u64| within(slot, 8, a) implies byte_at(after, a) == byte_at(d1, a) by {
            if in_bodies(rest, a) {
                let k = choose|k: int|
                    0 <= k < rest.len() && within((#[trigger] rest[k]).ptr, rest[k].size as int, a)
                        && !within(rest[k].ptr, 8, a);
                assert(clear(rest[k].ptr, rest[k].size as int, slot, 8));
            }
        }
        lemma_same_u64(after, d1, slot);
        assert(mirrors(d1, at(v, 8), t, at(src, 8), size - 8)) by {
            reveal(mirrors);
            assert forall|i: int| 0 <= i < size - 8 implies byte_at(d1, #[trigger] at(at(v, 8), i))
                == byte_at(t, at(at(src, 8), i)) by {
                let a = at(at(v, 8), i);
                lemma_whole_copied(d, v, t, src, size as nat, a);
                assert(offset(v, a) == 8 + i);
                assert(at(src, 8 + i) == at(at(src, 8), i));
            }
        }
        assert(mirrors(after, at(v, 8), t, at(src, 8), size - 8)) by {
            reveal(mirrors);
            assert forall|i: int| 0 <= i < size - 8 implies byte_at(
                after,
                #[trigger] at(at(v, 8), i),
            ) == byte_at(t, at(at(src, 8), i)) by {
                let a = at(at(v, 8), i);
                if in_bodies(rest, a) {
                    let k = choose|k: int|
                        0 <= k < rest.len() && within(
                            (#[trigger] rest[k]).ptr,
                            rest[k].size as int,
                            a,
                        ) && !within(rest[k].ptr, 8, a);
                    assert(clear(rest[k].ptr, rest[k].size as int, v, size as int));
                }
            }
        }
        assert forall|a: u64| within(v, 8, a) implies byte_at(after, a) == byte_at(d1, a) by {
            if in_bodies(rest, a) {
                let k = choose|k: int|
                    0 <= k < rest.len() && within((#[trigger] rest[k]).ptr, rest[k].size as int, a)
                        && !within(rest[k].ptr, 8, a);
                assert(clear(rest[k].ptr, rest[k].size as int, v, size as int));
            }
        }
        lemma_same_u64(after, d1, v);
        assert forall|a: u64| !in_bodies(nodes, a) implies byte_at(after, a) == byte_at(d, a) by {
            lemma_in_later_bodies(nodes, a);
        }
    }
}

/// Whether `size_of` reads the size of an extension off its body: an
/// extension whose body mirrors the body of another has the size of the
/// other.
pub open spec fn reads_body(size_of: SizeOf) -> bool {
    forall|m: Bytes, v: u64, t: Bytes, x: u64, size: usize|
        #![trigger size_of(m, v), size_of(t, x), mirrors(m, at(v, 8), t, at(x, 8), size - 8)]
        size_of(t, x) == Ok::<usize, Error>(size) && mirrors(m, at(v, 8), t, at(x, 8), size - 8)
            ==> size_of(m, v) == Ok::<usize, Error>(size)
}

/// Whether `size_of` reads in `m` the sizes of the blocks `nodes`.
pub open spec fn sized(size_of: SizeOf, m: Bytes, nodes: Seq<Holding>) -> bool {
    forall|k: int|
        0 <= k < nodes.len() ==> size_of(m, (#[trigger] nodes[k]).ptr) == Ok::<usize, Error>(
            nodes[k].size,
        )
}

/// Blocks whose bodies mirror the extensions of the source have their sizes.
pub proof fn lemma_bodies_sized(
    size_of: SizeOf,
    m: Bytes,
    nodes: Seq<Holding>,
    t: Bytes,
    src: u64,
    fuel: nat,
)
    requires
        reads_body(size_of),
        bodies(m, nodes, t, src),
        matches_source(size_of, nodes, t, src, fuel),
    ensures
        sized(size_of, m, nodes),
        nodes.len() <= fuel,
    decreases fuel,
{
    if src != 0 {
        let rest = nodes.drop_first();
        lemma_bodies_sized(size_of, m, rest, t, u64_at(t, src), (fuel - 1) as nat);
        assert(size_of(m, nodes[0].ptr) == Ok::<usize, Error>(nodes[0].size));
        assert forall|k: int| 0 <= k < nodes.len() implies size_of(m, (#[trigger] nodes[k]).ptr)
            == Ok::<usize, Error>(nodes[k].size) by {
            if k > 0 {
                assert(nodes[k] == rest[k - 1]);
            }
        }
    }
}

/// Two memories in which the same chain reaches the same blocks, whose
/// bodies mirror the same extensions, hold the same bytes in the blocks.
pub proof fn lemma_chain_agrees(
    m1: Bytes,
    m2: Bytes,
    first: u64,
    nodes: Seq<Holding>,
    t: Bytes,
    src: u64,
)
    requires
        reaches(m1, first, nodes),
        reaches(m2, first, nodes),
        bodies(m1, nodes, t, src),
        bodies(m2, nodes, t, src),
        nodes_apart(nodes),
    ensures
        forall|a: u64| in_nodes(nodes, a) ==> byte_at(m1, a) == byte_at(m2, a),
    decreases nodes.len(),
{
    if nodes.len() > 0 {
        let node = nodes[0];
        let rest = nodes.drop_first();
        let next1 = u64_at(m1, node.ptr);
        let next2 = u64_at(m2, node.ptr);
        lemma_later_apart(nodes);
        assert(reaches(m1, next1, rest) && reaches(m2, next2, rest));
        assert(next1 == next2) by {
            if rest.len() > 0 {
                assert(next1 == rest[0].ptr && next2 == rest[0].ptr);
            } else {
                assert(next1 == 0 && next2 == 0);
            }
        }
        lemma_chain_agrees(m1, m2, next1, rest, t, u64_at(t, src));
        lemma_same_number(m1, m2, node.ptr);
        lemma_mirrors_agree(m1, m2, at(node.ptr, 8), t, at(src, 8), node.size - 8);
        assert forall|a: u64| in_nodes(nodes, a) implies byte_at(m1, a) == byte_at(m2, a) by {
            lemma_in_later_nodes(nodes, a);
        }
    }
}

/// What the copy back of a chain does, from blocks whose bodies mirror the
/// extensions of the trusted chain: the trusted memory stays as it was.
pub proof fn lemma_chain_copied_back(
    size_of: SizeOf,
    near: Bytes,
    t: Bytes,
    slot: u64,
    m: Bytes,
    first: u64,
    nodes: Seq<Holding>,
    fuel: nat,
)
    requires
        sizes_hold_header(size_of),
        reads_body(size_of),
        same_bytes(near, t),
        reaches(m, first, nodes),
        bodies(m, nodes, t, u64_at(t, slot)),
        matches_source(size_of, nodes, t, u64_at(t, slot), fuel),
        nodes_apart(nodes),
    ensures
        plain_chain_copied(size_of, near, slot, m, first, fuel).0 is Ok,
        same_bytes(plain_chain_copied(size_of, near, slot, m, first, fuel).1, t),
    decreases fuel,
{
    let src = u64_at(t, slot);
    if nodes.len() > 0 {
        let rest = nodes.drop_first();
        let v = nodes[0].ptr;
        let size = nodes[0].size;
        lemma_later_apart(nodes);
        lemma_same_u64(near, t, slot);
        assert(size_of(m, v) == Ok::<usize, Error>(size));
        let near1 = whole_copied(near, src, m, v, size as nat);
        assert forall|a: u64| byte_at(near1, a) == byte_at(t, a) by {
            lemma_whole_copied(near, src, m, v, size as nat, a);
            if within(src, size as int, a) && !within(src, 8, a) {
                let i = offset(src, a) - 8;
                reveal(mirrors);
                assert(at(at(v, 8), i) == at(v, offset(src, a)));
                assert(at(at(src, 8), i) == a);
            }
        }
        lemma_same_u64(near1, t, slot);
        lemma_chain_copied_back(
            size_of,
            near1,
            t,
            src,
            m,
            u64_at(m, v),
            rest,
            (fuel - 1) as nat,
        );
    }
}

/// Blocks that lie clear of each other are different blocks.
pub proof fn lemma_apart_distinct(nodes: Seq<Holding>)
    requires
        nodes.len() > 0,
        nodes_apart(nodes),
    ensures
        !nodes.drop_first().to_set().contains(nodes[0]),
{
    let rest = nodes.drop_first();
    if rest.to_set().contains(nodes[0]) {
        let k = choose|k: int| 0 <= k < rest.len() && rest[k] == nodes[0];
        assert(rest[k] == nodes[k + 1]);
        assert(clear(nodes[0].ptr, nodes[0].size as int, nodes[k + 1].ptr, nodes[k + 1].size as int));
    }
}

/// What the free phase of a chain does, for a chain of blocks that the call
/// holds and whose sizes can be read: every block is given back, and the
/// call holds what it held beside them.
pub proof fn lemma_chain_freed(
    size_of: SizeOf,
    before: Seq<Arena>,
    blocks: Set<Holding>,
    h: ShadowView,
    first: u64,
    nodes: Seq<Holding>,
    fuel: nat,
)
    requires
        holding(before, h.arenas, blocks.union(nodes.to_set())),
        forall|k: int| 0 <= k < nodes.len() ==> !blocks.contains(#[trigger] nodes[k]),
        nodes_apart(nodes),
        reaches(h.bytes, first, nodes),
        sized(size_of, h.bytes, nodes),
        nodes.len() <= fuel,
    ensures
        ({
            let (r, after) = plain_chain_freed(size_of, h, first, fuel);
            &&& r is Ok
            &&& after.bytes == h.bytes
            &&& holding(before, after.arenas, blocks)
        }),
    decreases fuel,
{
    if nodes.len() == 0 {
        assert(blocks.union(nodes.to_set()) =~= blocks);
    } else {
        let rest = nodes.drop_first();
        let g = nodes[0];
        lemma_later_apart(nodes);
        lemma_apart_distinct(nodes);
        let all = blocks.union(nodes.to_set());
        assert(nodes.to_set().contains(g));
        assert(all.contains(g));
        lemma_buffer_leaves(before, h.arenas, all, g, g.ptr, g.size);
        assert(all.remove(g) =~= blocks.union(rest.to_set())) by {
            assert forall|b: Holding| all.remove(g).contains(b) <==> blocks.union(
                rest.to_set(),
            ).contains(b) by {
                if nodes.to_set().contains(b) && b != g {
                    let k = choose|k: int| 0 <= k < nodes.len() && nodes[k] == b;
                    assert(rest[k - 1] == b);
                }
                if rest.to_set().contains(b) {
                    let k = choose|k: int| 0 <= k < rest.len() && rest[k] == b;
                    assert(nodes[k + 1] == b);
                }
            }
        }
        let h1 = ShadowView { arenas: released(h.arenas, g.ptr, g.size), bytes: h.bytes };
        assert forall|k: int| 0 <= k < rest.len() implies !blocks.contains(#[trigger] rest[k]) by {
            assert(rest[k] == nodes[k + 1]);
        }
        assert(sized(size_of, h.bytes, rest)) by {
            assert forall|k: int| 0 <= k < rest.len() implies size_of(
                h.bytes,
                (#[trigger] rest[k]).ptr,
            ) == Ok::<usize, Error>(rest[k].size) by {
                assert(rest[k] == nodes[k + 1]);
            }
        }
        lemma_chain_freed(
            size_of,
            before,
            blocks,
            h1,
            u64_at(h.bytes, g.ptr),
            rest,
            (fuel - 1) as nat,
        );
    }
}

/// A chain stays what it is, with the sizes of its blocks, in a memory that
/// holds the same bytes in the blocks.
pub proof fn lemma_chain_kept(size_of: SizeOf, m: Bytes, x: Bytes, first: u64, nodes: Seq<Holding>)
    requires
        reads_body(size_of),
        reaches(m, first, nodes),
        sized(size_of, m, nodes),
        nodes_apart(nodes),
        forall|a: u64| in_nodes(nodes, a) ==> byte_at(x, a) == byte_at(m, a),
    ensures
        reaches(x, first, nodes),
        sized(size_of, x, nodes),
{
    assert forall|a: u64| in_links(nodes, a) implies byte_at(x, a) == byte_at(m, a) by {
        let k = choose|k: int| 0 <= k < nodes.len() && within((#[trigger] nodes[k]).ptr, 8, a);
        assert(nodes[k].size >= 8);
        assert(within(nodes[k].ptr, nodes[k].size as int, a));
        assert(in_nodes(nodes, a));
    }
    lemma_reaches_kept(m, x, first, nodes);
    assert forall|k: int| 0 <= k < nodes.len() implies size_of(x, (#[trigger] nodes[k]).ptr)
        == Ok::<usize, Error>(nodes[k].size) by {
        let v = nodes[k].ptr;
        let size = nodes[k].size;
        assert(mirrors(x, at(v, 8), m, at(v, 8), size - 8)) by {
            reveal(mirrors);
            assert forall|i: int| 0 <= i < size - 8 implies byte_at(x, #[trigger] at(at(v, 8), i))
                == byte_at(m, at(at(v, 8), i)) by {
                assert(within(v, size as int, at(at(v, 8), i)));
                assert(in_nodes(nodes, at(at(v, 8), i)));
            }
        }
        assert(size_of(m, v) == Ok::<usize, Error>(size));
    }
}

/// The copy from a chain that reaches blocks whose sizes can be read ends
/// well, whatever the blocks hold besides.
pub proof fn lemma_chain_copied_ok(
    size_of: SizeOf,
    d: Bytes,
    slot: u64,
    s: Bytes,
    first: u64,
    nodes: Seq<Holding>,
    fuel: nat,
)
    requires
        reaches(s, first, nodes),
        sized(size_of, s, nodes),
        nodes_apart(nodes),
        nodes.len() <= fuel,
    ensures
        plain_chain_copied(size_of, d, slot, s, first, fuel).0 is Ok,
    decreases nodes.len(),
{
    if nodes.len() > 0 {
        let rest = nodes.drop_first();
        lemma_later_apart(nodes);
        assert(size_of(s, nodes[0].ptr) == Ok::<usize, Error>(nodes[0].size));
        assert forall|k: int| 0 <= k < rest.len() implies size_of(s, (#[trigger] rest[k]).ptr)
            == Ok::<usize, Error>(rest[k].size) by {
            assert(rest[k] == nodes[k + 1]);
        }
        let d1 = whole_copied(d, u64_at(d, slot), s, first, nodes[0].size as nat);
        lemma_chain_copied_ok(
            size_of,
            d1,
            u64_at(d1, slot),
            s,
            u64_at(s, first),
            rest,
            (fuel - 1) as nat,
        );
    }
}

/// Whether the blocks `nodes2` in `m2` are, one by one, what the blocks
/// `nodes1` in `m1` are: as many and as long, with the same bytes but for
/// the address of the next extension.
pub open spec fn chains_alike(m2: Bytes, nodes2: Seq<Holding>, m1: Bytes, nodes1: Seq<Holding>) -> bool {
    &&& nodes2.len() == nodes1.len()
    &&& forall|k: int|
        0 <= k < nodes1.len() ==> (#[trigger] nodes2[k]).size == nodes1[k].size && mirrors(
            m2,
            at(nodes2[k].ptr, 8),
            m1,
            at(nodes1[k].ptr, 8),
            nodes1[k].size - 8,
        )
}

/// Blocks that mirror a chain which itself lies in blocks are, one by one,
/// what those blocks are.
pub proof fn lemma_chains_alike(
    size_of: SizeOf,
    m2: Bytes,
    nodes2: Seq<Holding>,
    m1: Bytes,
    first1: u64,
    nodes1: Seq<Holding>,
    fuel: nat,
)
    requires
        nodes_apart(nodes1),
        reaches(m1, first1, nodes1),
        sized(size_of, m1, nodes1),
        matches_source(size_of, nodes2, m1, first1, fuel),
        bodies(m2, nodes2, m1, first1),
    ensures
        chains_alike(m2, nodes2, m1, nodes1),
    decreases nodes1.len(),
{
    if nodes1.len() > 0 {
        let r1 = nodes1.drop_first();
        let r2 = nodes2.drop_first();
        lemma_later_apart(nodes1);
        assert(size_of(m1, nodes1[0].ptr) == Ok::<usize, Error>(nodes1[0].size));
        assert forall|k: int| 0 <= k < r1.len() implies size_of(m1, (#[trigger] r1[k]).ptr)
            == Ok::<usize, Error>(r1[k].size) by {
            assert(r1[k] == nodes1[k + 1]);
        }
        lemma_chains_alike(size_of, m2, r2, m1, u64_at(m1, first1), r1, (fuel - 1) as nat);
        assert forall|k: int| 0 <= k < nodes1.len() implies (#[trigger] nodes2[k]).size
            == nodes1[k].size && mirrors(
            m2,
            at(nodes2[k].ptr, 8),
            m1,
            at(nodes1[k].ptr, 8),
            nodes1[k].size - 8,
        ) by {
            if k > 0 {
                assert(nodes2[k] == r2[k - 1]);
                assert(nodes1[k] == r1[k - 1]);
            }
        }
    }
}

/// Walking a chain that is itself the copy of a chain and mirroring it into
/// new blocks gives copies that are, one by one, what the copies of the
/// first chain are, but for the address of the next extension; the walk ends
/// well, and no byte changes outside the new pointer and the new blocks,
/// which lie clear of every block that the call held.
pub proof fn lemma_chain_reserialised(
    size_of: SizeOf,
    before: Seq<Arena>,
    blocks: Set<Holding>,
    arenas: Seq<Arena>,
    m1: Bytes,
    first1: u64,
    nodes1: Seq<Holding>,
    t: Bytes,
    src: u64,
    slot: u64,
    home: Holding,
    fuel: nat,
)
    requires
        sizes_hold_header(size_of),
        reads_body(size_of),
        nodes_apart(nodes1),
        matches_source(size_of, nodes1, t, src, fuel),
        reaches(m1, first1, nodes1),
        bodies(m1, nodes1, t, src),
        holding(before, arenas, blocks),
        blocks.contains(home),
        home.ptr <= slot,
        slot + 8 <= home.ptr + home.size,
        plain_chain_allocated(
            size_of,
            ShadowView { arenas, bytes: with_u64(m1, slot, 0) },
            slot,
            m1,
            first1,
            fuel,
        ).0 is Ok,
    ensures
        ({
            let h2 = plain_chain_allocated(
                size_of,
                ShadowView { arenas, bytes: with_u64(m1, slot, 0) },
                slot,
                m1,
                first1,
                fuel,
            ).1;
            let (r, m2) = plain_chain_copied(size_of, h2.bytes, slot, m1, first1, fuel);
            let nodes2 = chain_grants(size_of, arenas, m1, first1, fuel);
            &&& r is Ok
            &&& chains_alike(m2, nodes2, m1, nodes1)
            &&& forall|b: Holding| #[trigger]
                blocks.contains(b) ==> nodes_clear_of(nodes2, b.ptr, b.size as int)
            &&& forall|a: u64|
                !within(slot, 8, a) && !in_nodes(nodes2, a) ==> byte_at(m2, a) == byte_at(m1, a)
        }),
{
    let h = ShadowView { arenas, bytes: with_u64(m1, slot, 0) };
    lemma_with_u64(m1, slot, 0);
    lemma_held_range(before, arenas, blocks, home);
    lemma_chain_allocated(size_of, before, blocks, h, slot, m1, first1, fuel, home);
    let h2 = plain_chain_allocated(size_of, h, slot, m1, first1, fuel).1;
    let nodes2 = chain_grants(size_of, arenas, m1, first1, fuel);
    assert(nodes_clear_of(nodes2, home.ptr, home.size as int));
    lemma_clear_of_part(nodes2, home.ptr, home.size as int, slot, 8);
    lemma_linked_reaches(h2.bytes, slot, nodes2);
    assert(u64_at(h2.bytes, slot) == (if nodes2.len() > 0 {
        nodes2[0].ptr
    } else {
        0
    }));
    lemma_chain_copied_out(size_of, h2.bytes, slot, nodes2, m1, first1, fuel);
    let m2 = plain_chain_copied(size_of, h2.bytes, slot, m1, first1, fuel).1;
    lemma_bodies_sized(size_of, m1, nodes1, t, src, fuel);
    lemma_chains_alike(size_of, m2, nodes2, m1, first1, nodes1, fuel);
    assert forall|a: u64| !within(slot, 8, a) && !in_nodes(nodes2, a) implies byte_at(m2, a)
        == byte_at(m1, a) by {
        if in_bodies(nodes2, a) {
            let k = choose|k: int|
                0 <= k < nodes2.len() && within((#[trigger] nodes2[k]).ptr, nodes2[k].size as int, a)
                    && !within(nodes2[k].ptr, 8, a);
            assert(in_nodes(nodes2, a));
        }
    }
}

} // verus!
