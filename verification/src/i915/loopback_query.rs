//! Queries with a driver that leaves the copy of the argument as it finds
//! it.
//!
//! The copy of a query points to an array of items, and every item to a
//! buffer for its answer. The alloc phase allocates the buffers one item
//! after the other; the copy out fills items and buffers; the copy back finds
//! in them what the trusted items hold; and the free phase gives every
//! buffer back.

use vstd::prelude::*;
use crate::buddy_alloc::Arena;
use crate::error::Error;
use crate::holdings::{
    Holding, grant, holding, joined, lemma_buffer_joins, lemma_buffer_leaves, lemma_held_range,
};
use crate::i915::loopback::{
    begun, comes_back, gives_back, lemma_exec2_comes_back, lemma_exec2_gives_back,
    lemma_root_held,
};
use crate::i915::query::{drm_i915_query, drm_i915_query_item};
use crate::i915::{Deep, Direction, exec2_finished, exec2_result};
use crate::memory::{PTR_NULL, allocation, released, same_blocks, same_free, sound};
use crate::shadow::{ShadowView, array_size, size_of_i32};
use crate::space::{
    Bytes, at, byte_at, clear, copied, i32_at, lemma_copied_byte, lemma_kept_u64,
    lemma_mirrors_back, lemma_mirrors_copied, lemma_mirrors_framed, lemma_mirrors_i32,
    lemma_mirrors_kept, lemma_mirrors_none, lemma_mirrors_part, lemma_mirrors_u32,
    lemma_put_kept_u64, lemma_same_i32, lemma_same_u64, lemma_with_u64, mirrors, same_bytes,
    u32_at, u64_at, with_u64, within,
};

verus! {

/// The address of the item `i` of the array at `base`.
pub open spec fn item_at(base: u64, i: nat) -> u64 {
    at(base, 24 * i as int)
}

/// The size of the buffer of the item `i` of the trusted array at `ti`.
pub open spec fn item_size(t: Bytes, ti: u64, i: nat) -> usize {
    size_of_i32(i32_at(t, at(item_at(ti, i), 8)))
}

/// The blocks that the alloc phase is given for the items from `i` on, one
/// for every item: the block of an item without answer is no block, and its
/// address is `PTR_NULL`.
pub open spec fn item_grants(now: Seq<Arena>, t: Bytes, ti: u64, i: nat, n: nat) -> Seq<Holding>
    decreases n - i,
{
    if i >= n {
        Seq::empty()
    } else if allocation(now, item_size(t, ti, i)).0 is Err {
        Seq::empty()
    } else {
        seq![grant(now, item_size(t, ti, i))].add(
            item_grants(allocation(now, item_size(t, ti, i)).1, t, ti, i + 1, n),
        )
    }
}

/// The blocks among `bufs` that are blocks: those with a size.
pub open spec fn solid(bufs: Seq<Holding>) -> Set<Holding> {
    Set::new(|b: Holding| b.size > 0 && bufs.contains(b))
}

/// Whether the items from `i` on of the array at `vi` in `m` point to the
/// buffers `bufs`, one after the other.
pub open spec fn pointed(m: Bytes, vi: u64, bufs: Seq<Holding>, i: nat) -> bool
    decreases bufs.len(),
{
    bufs.len() == 0 || (u64_at(m, at(item_at(vi, i), 16)) == bufs[0].ptr && pointed(
        m,
        vi,
        bufs.drop_first(),
        i + 1,
    ))
}

/// Whether the buffers `bufs` that are blocks lie clear of each other and
/// begin after address zero, and the others are `PTR_NULL`.
pub open spec fn bufs_apart(bufs: Seq<Holding>) -> bool {
    &&& forall|k: int|
        0 <= k < bufs.len() ==> if (#[trigger] bufs[k]).size > 0 {
            bufs[k].ptr > 0 && bufs[k].ptr + bufs[k].size <= usize::MAX
        } else {
            bufs[k].ptr == PTR_NULL
        }
    &&& forall|j: int, k: int|
        0 <= j < k < bufs.len() && (#[trigger] bufs[j]).size > 0 && (#[trigger] bufs[k]).size > 0
            ==> clear(bufs[j].ptr, bufs[j].size as int, bufs[k].ptr, bufs[k].size as int)
}

/// Whether the buffers `bufs` that are blocks lie clear of the `len` bytes
/// from `base`.
pub open spec fn bufs_clear_of(bufs: Seq<Holding>, base: u64, len: int) -> bool {
    forall|k: int|
        0 <= k < bufs.len() && (#[trigger] bufs[k]).size > 0 ==> clear(
            bufs[k].ptr,
            bufs[k].size as int,
            base,
            len,
        )
}

/// Whether the buffers `bufs` have the sizes of the buffers of the trusted
/// items from `i` on.
pub open spec fn bufs_sized(bufs: Seq<Holding>, t: Bytes, ti: u64, i: nat) -> bool {
    forall|k: int| 0 <= k < bufs.len() ==> (#[trigger] bufs[k]).size == item_size(t, ti, i + k as nat)
}

/// Whether `a` is a byte of the pointer to the buffer of one of the items
/// from `i` up to `n` of the array at `vi`.
pub open spec fn in_fields(vi: u64, i: nat, n: nat, a: u64) -> bool {
    exists|j: nat| i <= j < n && within(at(#[trigger] item_at(vi, j), 16), 8, a)
}

/// An array of `n` items that does not go round the end of the address space
/// holds its items one after the other.
pub proof fn lemma_item_at(vi: u64, i: nat, n: nat)
    requires
        i < n,
        vi + 24 * n <= 0x1_0000_0000_0000_0000,
    ensures
        item_at(vi, i) == vi + 24 * i,
        at(item_at(vi, i), 8) == vi + 24 * i + 8,
        at(item_at(vi, i), 16) == vi + 24 * i + 16,
        vi + 24 * i + 24 <= vi + 24 * n,
{
}

/// The buffers of the later items are the later buffers.
pub proof fn lemma_solid_later(bufs: Seq<Holding>)
    requires
        bufs.len() > 0,
    ensures
        solid(bufs) =~= (if bufs[0].size > 0 {
            solid(bufs.drop_first()).insert(bufs[0])
        } else {
            solid(bufs.drop_first())
        }),
{
    let rest = bufs.drop_first();
    assert forall|b: Holding| solid(bufs).contains(b) <==> (if bufs[0].size > 0 {
        solid(rest).insert(bufs[0])
    } else {
        solid(rest)
    }).contains(b) by {
        if bufs.contains(b) {
            let k = choose|k: int| 0 <= k < bufs.len() && bufs[k] == b;
            if k > 0 {
                assert(rest[k - 1] == b);
            }
        }
        if rest.contains(b) {
            let k = choose|k: int| 0 <= k < rest.len() && rest[k] == b;
            assert(bufs[k + 1] == b);
        }
        if b == bufs[0] {
            assert(bufs[0] == b);
        }
    }
}

/// What the alloc phase does for the items from `i` on, for a copy that
/// points to its array: the call holds a new block for every item with an
/// answer; the blocks lie clear of what the call held and of each other;
/// the items point to them; and no byte changes but the pointers of the
/// items.
pub proof fn lemma_items_allocated(
    before: Seq<Arena>,
    blocks: Set<Holding>,
    h: ShadowView,
    p: u64,
    t: Bytes,
    arg: u64,
    i: nat,
    n: nat,
    root: Holding,
    items: Holding,
)
    requires
        holding(before, h.arenas, blocks),
        blocks.contains(root),
        blocks.contains(items),
        root.ptr == p,
        root.size == 16,
        items.size == 24 * n,
        clear(items.ptr, items.size as int, p, 16),
        u64_at(h.bytes, at(p, 8)) == items.ptr,
        i <= n,
        n <= u32::MAX,
        drm_i915_query::items_allocated(h, p, t, arg, i, n).0 is Ok,
    ensures
        ({
            let bufs = item_grants(h.arenas, t, u64_at(t, at(arg, 8)), i, n);
            let after = drm_i915_query::items_allocated(h, p, t, arg, i, n).1;
            &&& bufs.len() == n - i
            &&& holding(before, after.arenas, blocks.union(solid(bufs)))
            &&& forall|k: int|
                0 <= k < bufs.len() && (#[trigger] bufs[k]).size > 0 ==> !blocks.contains(bufs[k])
            &&& forall|b: Holding| #[trigger]
                blocks.contains(b) ==> bufs_clear_of(bufs, b.ptr, b.size as int)
            &&& bufs_apart(bufs)
            &&& bufs_sized(bufs, t, u64_at(t, at(arg, 8)), i)
            &&& pointed(after.bytes, items.ptr, bufs, i)
            &&& forall|a: u64|
                !in_fields(items.ptr, i, n, a) ==> byte_at(after.bytes, a) == byte_at(h.bytes, a)
        }),
    decreases n - i,
{
    let ti = u64_at(t, at(arg, 8));
    let vi = items.ptr;
    let bufs = item_grants(h.arenas, t, ti, i, n);
    let after = drm_i915_query::items_allocated(h, p, t, arg, i, n).1;
    if i >= n {
        assert(blocks.union(solid(bufs)) =~= blocks);
    } else {
        reveal(drm_i915_query_item::allocated);
        lemma_held_range(before, h.arenas, blocks, items);
        lemma_held_range(before, h.arenas, blocks, root);
        lemma_item_at(vi, i, n);
        let size = item_size(t, ti, i);
        let field = at(item_at(vi, i), 16);
        assert(array_size(24, i as usize) == Ok::<usize, Error>((24 * i) as usize));
        let g = grant(h.arenas, size);
        let (r, a1) = allocation(h.arenas, size);
        let v = r->Ok_0;
        let b1 = with_u64(h.bytes, field, v);
        let h1 = ShadowView { arenas: a1, bytes: b1 };
        lemma_buffer_joins(before, h.arenas, blocks, size);
        let blocks1 = joined(blocks, h.arenas, size);
        lemma_with_u64(h.bytes, field, v);
        lemma_put_kept_u64(h.bytes, field, v, at(p, 8));
        assert(blocks1.contains(root) && blocks1.contains(items));
        lemma_items_allocated(before, blocks1, h1, p, t, arg, i + 1, n, root, items);
        let rest = item_grants(a1, t, ti, i + 1, n);
        assert(bufs == seq![g].add(rest));
        assert(bufs.drop_first() =~= rest);
        assert(bufs[0] == g);
        lemma_solid_later(bufs);
        assert(blocks.union(solid(bufs)) =~= blocks1.union(solid(rest)));
        assert forall|k: int| 0 <= k < bufs.len() && (#[trigger] bufs[k]).size > 0 implies !blocks.contains(
            bufs[k],
        ) by {
            if k > 0 {
                assert(bufs[k] == rest[k - 1]);
                assert(!blocks1.contains(rest[k - 1]));
            }
        }
        assert forall|b: Holding| #[trigger] blocks.contains(b) implies bufs_clear_of(
            bufs,
            b.ptr,
            b.size as int,
        ) by {
            assert(blocks1.contains(b));
            assert(bufs_clear_of(rest, b.ptr, b.size as int));
            assert forall|k: int| 0 <= k < bufs.len() && (#[trigger] bufs[k]).size > 0 implies clear(
                bufs[k].ptr,
                bufs[k].size as int,
                b.ptr,
                b.size as int,
            ) by {
                if k > 0 {
                    assert(bufs[k] == rest[k - 1]);
                }
            }
        }
        assert(bufs_apart(bufs)) by {
            if size > 0 {
                assert(blocks1.contains(g));
                assert(bufs_clear_of(rest, g.ptr, g.size as int));
                lemma_held_range(before, a1, blocks1, g);
            }
            assert forall|k: int| 0 <= k < bufs.len() implies if (#[trigger] bufs[k]).size > 0 {
                bufs[k].ptr > 0 && bufs[k].ptr + bufs[k].size <= usize::MAX
            } else {
                bufs[k].ptr == PTR_NULL
            } by {
                if k > 0 {
                    assert(bufs[k] == rest[k - 1]);
                }
            }
            assert forall|j: int, k: int|
                0 <= j < k < bufs.len() && (#[trigger] bufs[j]).size > 0 && (
                #[trigger] bufs[k]).size > 0 implies clear(
                bufs[j].ptr,
                bufs[j].size as int,
                bufs[k].ptr,
                bufs[k].size as int,
            ) by {
                assert(bufs[k] == rest[k - 1]);
                if j > 0 {
                    assert(bufs[j] == rest[j - 1]);
                }
            }
        }
        assert(bufs_sized(bufs, t, ti, i)) by {
            assert forall|k: int| 0 <= k < bufs.len() implies (#[trigger] bufs[k]).size
                == item_size(t, ti, i + k as nat) by {
                if k > 0 {
                    assert(bufs[k] == rest[k - 1]);
                    assert((i + 1 + (k - 1) as nat) as nat == i + k as nat);
                }
            }
        }
        assert forall|a: u64| within(field, 8, a) implies byte_at(after.bytes, a) == byte_at(
            b1,
            a,
        ) by {
            if in_fields(vi, i + 1, n, a) {
                let j = choose|j: nat|
                    i + 1 <= j < n && within(at(#[trigger] item_at(vi, j), 16), 8, a);
                lemma_item_at(vi, j, n);
            }
        }
        lemma_same_u64(after.bytes, b1, field);
        assert forall|a: u64| !in_fields(vi, i, n, a) implies byte_at(after.bytes, a) == byte_at(
            h.bytes,
            a,
        ) by {
            if in_fields(vi, i + 1, n, a) {
                let j = choose|j: nat|
                    i + 1 <= j < n && within(at(#[trigger] item_at(vi, j), 16), 8, a);
                assert(in_fields(vi, i, n, a));
            }
            assert(within(at(item_at(vi, i), 16), 8, a) ==> in_fields(vi, i, n, a));
        }
    }
}

/// The number of bytes of the answer of the trusted item `i` that travel:
/// its length, where it has one.
pub open spec fn answer_len(t: Bytes, ti: u64, i: nat) -> usize {
    if i32_at(t, at(item_at(ti, i), 8)) > 0 {
        i32_at(t, at(item_at(ti, i), 8)) as usize
    } else {
        0
    }
}

/// Whether the items from `i` on of the array at `vi` in `m`, and their
/// buffers `bufs`, mirror the trusted items and their answers.
pub open spec fn answers(m: Bytes, vi: u64, bufs: Seq<Holding>, t: Bytes, ti: u64, i: nat) -> bool
    decreases bufs.len(),
{
    bufs.len() == 0 || (mirrors(m, item_at(vi, i), t, item_at(ti, i), 16) && mirrors(
        m,
        bufs[0].ptr,
        t,
        u64_at(t, at(item_at(ti, i), 16)),
        answer_len(t, ti, i) as int,
    ) && answers(m, vi, bufs.drop_first(), t, ti, i + 1))
}

/// Whether `a` is a byte of the scalar fields of one of the items from `i`
/// up to `n` of the array at `vi`.
pub open spec fn in_items(vi: u64, i: nat, n: nat, a: u64) -> bool {
    exists|j: nat| i <= j < n && within(#[trigger] item_at(vi, j), 16, a)
}

/// Whether `a` is a byte of one of the buffers `bufs` that are blocks.
pub open spec fn in_bufs(bufs: Seq<Holding>, a: u64) -> bool {
    exists|k: int|
        0 <= k < bufs.len() && (#[trigger] bufs[k]).size > 0 && within(
            bufs[k].ptr,
            bufs[k].size as int,
            a,
        )
}

/// The later buffers of buffers that lie clear of each other lie clear of
/// each other and of the first.
pub proof fn lemma_bufs_later(bufs: Seq<Holding>)
    requires
        bufs.len() > 0,
        bufs_apart(bufs),
    ensures
        bufs_apart(bufs.drop_first()),
        bufs[0].size > 0 ==> bufs_clear_of(bufs.drop_first(), bufs[0].ptr, bufs[0].size as int),
        bufs[0].size > 0 ==> bufs[0].ptr > 0 && bufs[0].ptr + bufs[0].size <= usize::MAX,
        bufs[0].size == 0 ==> bufs[0].ptr == PTR_NULL,
        bufs[0].size > 0 ==> !solid(bufs.drop_first()).contains(bufs[0]),
{
    let rest = bufs.drop_first();
    assert forall|k: int| 0 <= k < rest.len() implies if (#[trigger] rest[k]).size > 0 {
        rest[k].ptr > 0 && rest[k].ptr + rest[k].size <= usize::MAX
    } else {
        rest[k].ptr == PTR_NULL
    } by {
        assert(rest[k] == bufs[k + 1]);
    }
    assert forall|j: int, k: int|
        0 <= j < k < rest.len() && (#[trigger] rest[j]).size > 0 && (#[trigger] rest[k]).size
            > 0 implies clear(rest[j].ptr, rest[j].size as int, rest[k].ptr, rest[k].size as int) by {
        assert(rest[j] == bufs[j + 1]);
        assert(rest[k] == bufs[k + 1]);
    }
    if bufs[0].size > 0 {
        assert forall|k: int| 0 <= k < rest.len() && (#[trigger] rest[k]).size > 0 implies clear(
            rest[k].ptr,
            rest[k].size as int,
            bufs[0].ptr,
            bufs[0].size as int,
        ) by {
            assert(rest[k] == bufs[k + 1]);
            assert(clear(bufs[0].ptr, bufs[0].size as int, bufs[k + 1].ptr, bufs[k + 1].size as int));
        }
        if solid(rest).contains(bufs[0]) {
            let k = choose|k: int| 0 <= k < rest.len() && rest[k] == bufs[0];
            assert(rest[k] == bufs[k + 1]);
            assert(clear(bufs[0].ptr, bufs[0].size as int, bufs[k + 1].ptr, bufs[k + 1].size as int));
        }
    }
}

/// The later buffers lie clear of what the buffers lie clear of, and have
/// the sizes of the later items.
pub proof fn lemma_bufs_later_clear(bufs: Seq<Holding>, base: u64, len: int)
    requires
        bufs.len() > 0,
        bufs_clear_of(bufs, base, len),
    ensures
        bufs_clear_of(bufs.drop_first(), base, len),
        bufs[0].size > 0 ==> clear(bufs[0].ptr, bufs[0].size as int, base, len),
{
    let rest = bufs.drop_first();
    assert forall|k: int| 0 <= k < rest.len() && (#[trigger] rest[k]).size > 0 implies clear(
        rest[k].ptr,
        rest[k].size as int,
        base,
        len,
    ) by {
        assert(rest[k] == bufs[k + 1]);
    }
}

/// The later buffers have the sizes of the buffers of the later items.
pub proof fn lemma_bufs_later_sized(bufs: Seq<Holding>, t: Bytes, ti: u64, i: nat)
    requires
        bufs.len() > 0,
        bufs_sized(bufs, t, ti, i),
    ensures
        bufs_sized(bufs.drop_first(), t, ti, i + 1),
        bufs[0].size == item_size(t, ti, i),
        answer_len(t, ti, i) > 0 ==> answer_len(t, ti, i) == bufs[0].size,
{
    let rest = bufs.drop_first();
    assert forall|k: int| 0 <= k < rest.len() implies (#[trigger] rest[k]).size == item_size(
        t,
        ti,
        i + 1 + k as nat,
    ) by {
        assert(rest[k] == bufs[k + 1]);
        assert((i + (k + 1) as nat) as nat == i + 1 + k as nat);
    }
    assert(bufs[0].size == item_size(t, ti, (i + 0) as nat));
}

/// The items stay pointed at their buffers as long as no pointer of them
/// changes.
pub proof fn lemma_pointed_kept(m: Bytes, x: Bytes, vi: u64, bufs: Seq<Holding>, i: nat, n: nat)
    requires
        pointed(m, vi, bufs, i),
        bufs.len() == n - i,
        i <= n,
        forall|a: u64| in_fields(vi, i, n, a) ==> byte_at(x, a) == byte_at(m, a),
    ensures
        pointed(x, vi, bufs, i),
    decreases bufs.len(),
{
    if bufs.len() > 0 {
        assert forall|a: u64| within(at(item_at(vi, i), 16), 8, a) implies byte_at(x, a) == byte_at(
            m,
            a,
        ) by {
            assert(in_fields(vi, i, n, a));
        }
        lemma_same_u64(x, m, at(item_at(vi, i), 16));
        assert forall|a: u64| in_fields(vi, i + 1, n, a) implies byte_at(x, a) == byte_at(m, a) by {
            let j = choose|j: nat|
                i + 1 <= j < n && within(at(#[trigger] item_at(vi, j), 16), 8, a);
            assert(in_fields(vi, i, n, a));
        }
        lemma_pointed_kept(m, x, vi, bufs.drop_first(), i + 1, n);
    }
}

/// Items and buffers mirror what they mirror as long as no byte of them
/// changes.
pub proof fn lemma_answers_kept(
    m: Bytes,
    x: Bytes,
    vi: u64,
    bufs: Seq<Holding>,
    t: Bytes,
    ti: u64,
    i: nat,
    n: nat,
)
    requires
        answers(m, vi, bufs, t, ti, i),
        bufs.len() == n - i,
        i <= n,
        vi + 24 * n <= 0x1_0000_0000_0000_0000,
        bufs_apart(bufs),
        bufs_sized(bufs, t, ti, i),
        forall|a: u64| in_items(vi, i, n, a) || in_bufs(bufs, a) ==> byte_at(x, a) == byte_at(m, a),
    ensures
        answers(x, vi, bufs, t, ti, i),
    decreases bufs.len(),
{
    if bufs.len() > 0 {
        let rest = bufs.drop_first();
        lemma_bufs_later(bufs);
        lemma_bufs_later_sized(bufs, t, ti, i);
        lemma_item_at(vi, i, n);
        assert forall|a: u64| within(item_at(vi, i), 16, a) implies byte_at(x, a) == byte_at(m, a) by {
            assert(in_items(vi, i, n, a));
        }
        lemma_mirrors_framed(m, x, item_at(vi, i), t, item_at(ti, i), 16);
        if answer_len(t, ti, i) > 0 {
            assert forall|a: u64| within(bufs[0].ptr, answer_len(t, ti, i) as int, a) implies byte_at(
                x,
                a,
            ) == byte_at(m, a) by {
                assert(in_bufs(bufs, a));
            }
            lemma_mirrors_framed(
                m,
                x,
                bufs[0].ptr,
                t,
                u64_at(t, at(item_at(ti, i), 16)),
                answer_len(t, ti, i) as int,
            );
        } else {
            lemma_mirrors_none(x, bufs[0].ptr, t, u64_at(t, at(item_at(ti, i), 16)));
        }
        assert forall|a: u64| in_items(vi, i + 1, n, a) || in_bufs(rest, a) implies byte_at(x, a)
            == byte_at(m, a) by {
            if in_items(vi, i + 1, n, a) {
                let j = choose|j: nat| i + 1 <= j < n && within(#[trigger] item_at(vi, j), 16, a);
                assert(in_items(vi, i, n, a));
            }
            if in_bufs(rest, a) {
                let k = choose|k: int|
                    0 <= k < rest.len() && (#[trigger] rest[k]).size > 0 && within(
                        rest[k].ptr,
                        rest[k].size as int,
                        a,
                    );
                assert(bufs[k + 1] == rest[k]);
                assert(in_bufs(bufs, a));
            }
        }
        lemma_answers_kept(m, x, vi, rest, t, ti, i + 1, n);
    }
}

/// What the copy out of one item does, for an item that points to its
/// buffer: the item mirrors the scalar fields of the trusted item, the
/// buffer its answer, and no other byte changes.
pub proof fn lemma_item_out(d: Bytes, di: u64, t: Bytes, si: u64, v: u64, len: usize)
    requires
        di + 24 <= 0x1_0000_0000_0000_0000,
        u64_at(d, at(di, 16)) == v,
        len == (if i32_at(t, at(si, 8)) > 0 {
            i32_at(t, at(si, 8)) as usize
        } else {
            0
        }),
        len > 0 ==> clear(v, len as int, di, 24),
    ensures
        ({
            let x = drm_i915_query_item::copy_result(d, di, t, si);
            &&& mirrors(x, di, t, si, 16)
            &&& mirrors(x, v, t, u64_at(t, at(si, 16)), len as int)
            &&& u64_at(x, at(di, 16)) == v
            &&& forall|a: u64|
                !within(di, 16, a) && !(len > 0 && within(v, len as int, a)) ==> byte_at(x, a)
                    == byte_at(d, a)
        }),
{
    reveal(drm_i915_query_item::copy_result);
    let d1 = copied(d, di, t, si, 16);
    let data = u64_at(t, at(si, 16));
    lemma_mirrors_copied(d, di, t, si, 16);
    lemma_kept_u64(d, di, t, si, 16, at(di, 16));
    assert forall|a: u64| !within(di, 16, a) implies byte_at(d1, a) == byte_at(d, a) by {
        lemma_copied_byte(d, di, t, si, 16, a);
    }
    if len > 0 {
        let x = copied(d1, v, t, data, len as nat);
        lemma_mirrors_copied(d1, v, t, data, len as nat);
        lemma_mirrors_kept(d1, v, t, data, len as nat, di, t, si, 16);
        lemma_kept_u64(d1, v, t, data, len as nat, at(di, 16));
        assert forall|a: u64| !within(v, len as int, a) implies byte_at(x, a) == byte_at(d1, a) by {
            lemma_copied_byte(d1, v, t, data, len as nat, a);
        }
    } else {
        lemma_mirrors_none(d1, v, t, data);
    }
}

/// Whether an array of `n` items at `vi`, the copy of the query at `p` and
/// the buffers `bufs` of the items from `i` on lie as the alloc phase leaves
/// them: none goes round the end of the address space, and they lie clear of
/// each other.
pub open spec fn query_laid(p: u64, vi: u64, bufs: Seq<Holding>, t: Bytes, ti: u64, i: nat, n: nat) -> bool {
    &&& i <= n <= u32::MAX
    &&& 24 * n <= usize::MAX
    &&& p + 16 <= 0x1_0000_0000_0000_0000
    &&& vi + 24 * n <= 0x1_0000_0000_0000_0000
    &&& clear(vi, 24 * n as int, p, 16)
    &&& bufs.len() == n - i
    &&& bufs_apart(bufs)
    &&& bufs_sized(bufs, t, ti, i)
    &&& bufs_clear_of(bufs, vi, 24 * n as int)
    &&& bufs_clear_of(bufs, p, 16)
}

/// What lies as the alloc phase leaves it lies so for the later items.
pub proof fn lemma_query_laid_later(
    p: u64,
    vi: u64,
    bufs: Seq<Holding>,
    t: Bytes,
    ti: u64,
    i: nat,
    n: nat,
)
    requires
        query_laid(p, vi, bufs, t, ti, i, n),
        i < n,
    ensures
        query_laid(p, vi, bufs.drop_first(), t, ti, i + 1, n),
        bufs[0].size == item_size(t, ti, i),
        answer_len(t, ti, i) > 0 ==> answer_len(t, ti, i) == bufs[0].size && clear(
            bufs[0].ptr,
            answer_len(t, ti, i) as int,
            item_at(vi, i),
            24,
        ) && clear(bufs[0].ptr, answer_len(t, ti, i) as int, p, 16),
        bufs[0].size > 0 ==> clear(bufs[0].ptr, bufs[0].size as int, vi, 24 * n as int) && clear(
            bufs[0].ptr,
            bufs[0].size as int,
            p,
            16,
        ),
        array_size(24, i as usize) == Ok::<usize, Error>((24 * i) as usize),
        item_at(vi, i) + 24 <= 0x1_0000_0000_0000_0000,
{
    lemma_bufs_later(bufs);
    lemma_bufs_later_sized(bufs, t, ti, i);
    lemma_bufs_later_clear(bufs, vi, 24 * n as int);
    lemma_bufs_later_clear(bufs, p, 16);
    lemma_item_at(vi, i, n);
}

/// What the copy out of the items from `i` on does, for items that point to
/// their buffers: the copy keeps pointing to its array and the items to
/// their buffers, items and buffers mirror the trusted items and their
/// answers, and no other byte changes.
pub proof fn lemma_items_copied_out(
    d: Bytes,
    p: u64,
    t: Bytes,
    arg: u64,
    vi: u64,
    bufs: Seq<Holding>,
    i: nat,
    n: nat,
)
    requires
        query_laid(p, vi, bufs, t, u64_at(t, at(arg, 8)), i, n),
        u64_at(d, at(p, 8)) == vi,
        pointed(d, vi, bufs, i),
    ensures
        ({
            let ti = u64_at(t, at(arg, 8));
            let (r, after) = drm_i915_query::items_copied(d, p, t, arg, Direction::t2u, i, n);
            &&& r is Ok
            &&& u64_at(after, at(p, 8)) == vi
            &&& pointed(after, vi, bufs, i)
            &&& answers(after, vi, bufs, t, ti, i)
            &&& forall|a: u64|
                !in_items(vi, i, n, a) && !in_bufs(bufs, a) ==> byte_at(after, a) == byte_at(d, a)
        }),
    decreases n - i,
{
    let ti = u64_at(t, at(arg, 8));
    if i < n {
        let rest = bufs.drop_first();
        let di = item_at(vi, i);
        let si = item_at(ti, i);
        let v = bufs[0].ptr;
        let len = answer_len(t, ti, i);
        lemma_query_laid_later(p, vi, bufs, t, ti, i, n);
        lemma_item_at(vi, i, n);
        lemma_item_out(d, di, t, si, v, len);
        let x = drm_i915_query_item::copy_result(d, di, t, si);
        assert(drm_i915_query::item_copied(d, di, t, si, Direction::t2u) == x);
        assert forall|a: u64| within(at(p, 8), 8, a) implies byte_at(x, a) == byte_at(d, a) by {}
        lemma_same_u64(x, d, at(p, 8));
        assert forall|a: u64| in_fields(vi, i + 1, n, a) implies byte_at(x, a) == byte_at(d, a) by {
            let j = choose|j: nat|
                i + 1 <= j < n && within(at(#[trigger] item_at(vi, j), 16), 8, a);
            lemma_item_at(vi, j, n);
        }
        lemma_pointed_kept(d, x, vi, rest, i + 1, n);
        lemma_items_copied_out(x, p, t, arg, vi, rest, i + 1, n);
        let after = drm_i915_query::items_copied(x, p, t, arg, Direction::t2u, i + 1, n).1;
        assert forall|a: u64|
            within(di, 24, a) || (len > 0 && within(v, len as int, a)) implies !in_items(
            vi,
            i + 1,
            n,
            a,
        ) && !in_bufs(rest, a) by {
            if in_items(vi, i + 1, n, a) {
                let j = choose|j: nat| i + 1 <= j < n && within(#[trigger] item_at(vi, j), 16, a);
                lemma_item_at(vi, j, n);
            }
            if in_bufs(rest, a) {
                let k = choose|k: int|
                    0 <= k < rest.len() && (#[trigger] rest[k]).size > 0 && within(
                        rest[k].ptr,
                        rest[k].size as int,
                        a,
                    );
                assert(clear(rest[k].ptr, rest[k].size as int, vi, 24 * n as int));
                if len > 0 {
                    assert(clear(rest[k].ptr, rest[k].size as int, v, bufs[0].size as int));
                }
            }
        }
        assert forall|a: u64| within(at(di, 16), 8, a) implies byte_at(after, a) == byte_at(x, a) by {
            assert(within(di, 24, a));
        }
        lemma_same_u64(after, x, at(di, 16));
        assert forall|a: u64| within(di, 16, a) implies byte_at(after, a) == byte_at(x, a) by {
            assert(within(di, 24, a));
        }
        lemma_mirrors_framed(x, after, di, t, si, 16);
        lemma_mirrors_framed(x, after, v, t, u64_at(t, at(si, 16)), len as int);
        assert forall|a: u64| !in_items(vi, i, n, a) && !in_bufs(bufs, a) implies byte_at(after, a)
            == byte_at(d, a) by {
            assert(!within(di, 16, a)) by {
                if within(di, 16, a) {
                    assert(in_items(vi, i, n, a));
                }
            }
            if len > 0 && within(v, len as int, a) {
                assert(bufs[0].size > 0 && within(bufs[0].ptr, bufs[0].size as int, a));
                assert(in_bufs(bufs, a));
            }
            if in_items(vi, i + 1, n, a) {
                let j = choose|j: nat| i + 1 <= j < n && within(#[trigger] item_at(vi, j), 16, a);
                assert(in_items(vi, i, n, a));
            }
            if in_bufs(rest, a) {
                let k = choose|k: int|
                    0 <= k < rest.len() && (#[trigger] rest[k]).size > 0 && within(
                        rest[k].ptr,
                        rest[k].size as int,
                        a,
                    );
                assert(bufs[k + 1] == rest[k]);
                assert(in_bufs(bufs, a));
            }
        }
    }
}

/// What the copy back of one item does, from an item that mirrors the
/// trusted item and points to a buffer that mirrors its answer: the trusted
/// memory stays as it was.
pub proof fn lemma_item_back(near: Bytes, t: Bytes, si: u64, m: Bytes, di: u64, v: u64, len: usize)
    requires
        same_bytes(near, t),
        mirrors(m, di, t, si, 16),
        u64_at(m, at(di, 16)) == v,
        len == (if i32_at(t, at(si, 8)) > 0 {
            i32_at(t, at(si, 8)) as usize
        } else {
            0
        }),
        mirrors(m, v, t, u64_at(t, at(si, 16)), len as int),
    ensures
        same_bytes(drm_i915_query::item_copied(near, si, m, di, Direction::u2t), t),
        i32_at(m, at(di, 8)) == i32_at(t, at(si, 8)),
{
    reveal(drm_i915_query_item::copy_result);
    lemma_same_i32(near, t, at(si, 8));
    lemma_mirrors_part(m, di, t, si, 16, 8, 4);
    lemma_mirrors_i32(m, at(di, 8), t, at(si, 8));
    if i32_at(t, at(si, 8)) == 0 {
        lemma_mirrors_back(near, t, at(si, 8), m, at(di, 8), 4);
    } else {
        let n1 = copied(near, si, m, di, 16);
        lemma_mirrors_back(near, t, si, m, di, 16);
        lemma_same_u64(n1, t, at(si, 16));
        if len > 0 {
            lemma_mirrors_back(n1, t, u64_at(t, at(si, 16)), m, v, len as nat);
        }
    }
}

/// What the copy back of the items from `i` on does, from items and buffers
/// that mirror the trusted items and their answers: the trusted memory stays
/// as it was.
pub proof fn lemma_items_copied_back(
    near: Bytes,
    t: Bytes,
    arg: u64,
    m: Bytes,
    p: u64,
    vi: u64,
    bufs: Seq<Holding>,
    i: nat,
    n: nat,
)
    requires
        i <= n <= u32::MAX,
        24 * n <= usize::MAX,
        bufs.len() == n - i,
        same_bytes(near, t),
        u64_at(m, at(p, 8)) == vi,
        pointed(m, vi, bufs, i),
        answers(m, vi, bufs, t, u64_at(t, at(arg, 8)), i),
    ensures
        drm_i915_query::items_copied(near, arg, m, p, Direction::u2t, i, n).0 is Ok,
        same_bytes(drm_i915_query::items_copied(near, arg, m, p, Direction::u2t, i, n).1, t),
    decreases n - i,
{
    let ti = u64_at(t, at(arg, 8));
    if i < n {
        lemma_same_u64(near, t, at(arg, 8));
        assert(array_size(24, i as usize) == Ok::<usize, Error>((24 * i) as usize));
        let si = item_at(ti, i);
        let di = item_at(vi, i);
        lemma_item_back(near, t, si, m, di, bufs[0].ptr, answer_len(t, ti, i));
        let n1 = drm_i915_query::item_copied(near, si, m, di, Direction::u2t);
        lemma_items_copied_back(n1, t, arg, m, p, vi, bufs.drop_first(), i + 1, n);
    }
}

/// What the free phase does for the items from `i` on, for items that
/// mirror the trusted items and point to buffers that the call holds: every
/// buffer is given back, and the call holds what it held beside them.
pub proof fn lemma_items_freed(
    before: Seq<Arena>,
    blocks: Set<Holding>,
    h: ShadowView,
    p: u64,
    vi: u64,
    bufs: Seq<Holding>,
    t: Bytes,
    ti: u64,
    i: nat,
    n: nat,
)
    requires
        i <= n <= u32::MAX,
        24 * n <= usize::MAX,
        bufs.len() == n - i,
        holding(before, h.arenas, blocks.union(solid(bufs))),
        forall|k: int|
            0 <= k < bufs.len() && (#[trigger] bufs[k]).size > 0 ==> !blocks.contains(bufs[k]),
        bufs_apart(bufs),
        bufs_sized(bufs, t, ti, i),
        u64_at(h.bytes, at(p, 8)) == vi,
        pointed(h.bytes, vi, bufs, i),
        answers(h.bytes, vi, bufs, t, ti, i),
    ensures
        ({
            let (r, after) = drm_i915_query::items_freed(h, p, i, n);
            &&& r is Ok
            &&& after.bytes == h.bytes
            &&& holding(before, after.arenas, blocks)
        }),
    decreases n - i,
{
    if i >= n {
        assert(blocks.union(solid(bufs)) =~= blocks);
    } else {
        reveal(drm_i915_query_item::freed);
        let rest = bufs.drop_first();
        let g = bufs[0];
        let di = item_at(vi, i);
        assert(array_size(24, i as usize) == Ok::<usize, Error>((24 * i) as usize));
        lemma_bufs_later(bufs);
        lemma_bufs_later_sized(bufs, t, ti, i);
        lemma_solid_later(bufs);
        lemma_mirrors_part(h.bytes, di, t, item_at(ti, i), 16, 8, 4);
        lemma_mirrors_i32(h.bytes, at(di, 8), t, at(item_at(ti, i), 8));
        let all = blocks.union(solid(bufs));
        if g.size > 0 {
            assert(bufs.contains(g));
            assert(all.contains(g));
        }
        lemma_buffer_leaves(before, h.arenas, all, g, g.ptr, g.size);
        let left = if g.size > 0 {
            all.remove(g)
        } else {
            all
        };
        assert(left =~= blocks.union(solid(rest)));
        let h1 = ShadowView { arenas: released(h.arenas, g.ptr, g.size), bytes: h.bytes };
        assert(drm_i915_query_item::freed(h, di) == h1);
        assert forall|k: int| 0 <= k < rest.len() && (#[trigger] rest[k]).size > 0 implies !blocks.contains(
            rest[k],
        ) by {
            assert(rest[k] == bufs[k + 1]);
        }
        lemma_items_freed(before, blocks, h1, p, vi, rest, t, ti, i + 1, n);
    }
}

/// The copy of a query after the copy out: it mirrors the scalar fields of
/// the argument and points to its array, the items point to their buffers,
/// and items and buffers mirror the trusted items and their answers.
pub proof fn lemma_query_mirrored(b: Bytes, p: u64, t: Bytes, arg: u64, vi: u64, bufs: Seq<Holding>)
    requires
        query_laid(p, vi, bufs, t, u64_at(t, at(arg, 8)), 0, u32_at(t, arg) as nat),
        u64_at(b, at(p, 8)) == vi,
        pointed(b, vi, bufs, 0),
    ensures
        ({
            let (r, m) = drm_i915_query::copy_result(b, p, t, arg, Direction::t2u);
            &&& r is Ok
            &&& mirrors(m, p, t, arg, 8)
            &&& u32_at(m, p) == u32_at(t, arg)
            &&& u64_at(m, at(p, 8)) == vi
            &&& pointed(m, vi, bufs, 0)
            &&& answers(m, vi, bufs, t, u64_at(t, at(arg, 8)), 0)
        }),
{
    let n = u32_at(t, arg) as nat;
    let ti = u64_at(t, at(arg, 8));
    let d0 = copied(b, p, t, arg, 8);
    lemma_kept_u64(b, p, t, arg, 8, at(p, 8));
    lemma_mirrors_copied(b, p, t, arg, 8);
    assert forall|a: u64| in_fields(vi, 0, n, a) implies byte_at(d0, a) == byte_at(b, a) by {
        let j = choose|j: nat| 0 <= j < n && within(at(#[trigger] item_at(vi, j), 16), 8, a);
        lemma_item_at(vi, j, n);
        lemma_copied_byte(b, p, t, arg, 8, a);
    }
    lemma_pointed_kept(b, d0, vi, bufs, 0, n);
    lemma_items_copied_out(d0, p, t, arg, vi, bufs, 0, n);
    let m = drm_i915_query::items_copied(d0, p, t, arg, Direction::t2u, 0, n).1;
    assert(drm_i915_query::copy_result(b, p, t, arg, Direction::t2u).1 == m) by {
        reveal(drm_i915_query::copy_result);
    }
    assert(drm_i915_query::copy_result(b, p, t, arg, Direction::t2u).0 is Ok) by {
        reveal(drm_i915_query::copy_result);
    }
    assert forall|a: u64| within(p, 8, a) implies byte_at(m, a) == byte_at(d0, a) by {
        if in_items(vi, 0, n, a) {
            let j = choose|j: nat| 0 <= j < n && within(#[trigger] item_at(vi, j), 16, a);
            lemma_item_at(vi, j, n);
        }
        if in_bufs(bufs, a) {
            let k = choose|k: int|
                0 <= k < bufs.len() && (#[trigger] bufs[k]).size > 0 && within(
                    bufs[k].ptr,
                    bufs[k].size as int,
                    a,
                );
            assert(clear(bufs[k].ptr, bufs[k].size as int, p, 16));
        }
    }
    lemma_mirrors_framed(d0, m, p, t, arg, 8);
    lemma_mirrors_part(m, p, t, arg, 8, 0, 4);
    assert(at(p, 0) == p && at(arg, 0) == arg);
    lemma_mirrors_u32(m, p, t, arg);
}

/// The copy back of a query from a copy that mirrors the argument leaves the
/// trusted memory as it was.
pub proof fn lemma_query_back(t: Bytes, arg: u64, m: Bytes, p: u64, vi: u64, bufs: Seq<Holding>)
    requires
        24 * u32_at(t, arg) <= usize::MAX,
        bufs.len() == u32_at(t, arg),
        mirrors(m, p, t, arg, 8),
        u32_at(m, p) == u32_at(t, arg),
        u64_at(m, at(p, 8)) == vi,
        pointed(m, vi, bufs, 0),
        answers(m, vi, bufs, t, u64_at(t, at(arg, 8)), 0),
    ensures
        drm_i915_query::copy_result(t, arg, m, p, Direction::u2t).0 is Ok,
        same_bytes(drm_i915_query::copy_result(t, arg, m, p, Direction::u2t).1, t),
{
    let n = u32_at(t, arg) as nat;
    let near = copied(t, arg, m, p, 8);
    lemma_mirrors_back(t, t, arg, m, p, 8);
    lemma_items_copied_back(near, t, arg, m, p, vi, bufs, 0, n);
    assert(drm_i915_query::copy_result(t, arg, m, p, Direction::u2t)
        == drm_i915_query::items_copied(near, arg, m, p, Direction::u2t, 0, n)) by {
        reveal(drm_i915_query::copy_result);
    }
}

/// A query with items comes back and gives back.
pub proof fn lemma_query_items_come_back(
    before: Seq<Arena>,
    h: ShadowView,
    t: Bytes,
    arg: u64,
    root: Holding,
)
    requires
        holding(before, h.arenas, set![root]),
        root.size == 16,
        u32_at(t, arg) > 0,
        drm_i915_query::allocated(h, root.ptr, t, arg).0 is Ok,
    ensures
        ({
            let h1 = drm_i915_query::allocated(h, root.ptr, t, arg).1;
            let (r2, m) = drm_i915_query::copy_result(h1.bytes, root.ptr, t, arg, Direction::t2u);
            let (r3, back) = drm_i915_query::copy_result(t, arg, m, root.ptr, Direction::u2t);
            let (r4, after) = drm_i915_query::freed(
                ShadowView { arenas: h1.arenas, bytes: m },
                root.ptr,
            );
            &&& r2 is Ok
            &&& r3 is Ok
            &&& same_bytes(back, t)
            &&& r4 is Ok
            &&& after.bytes == m
            &&& holding(before, after.arenas, set![root])
        }),
{
    reveal(drm_i915_query::allocated);
    reveal(drm_i915_query::freed);
    let p = root.ptr;
    let n = u32_at(t, arg) as nat;
    let ti = u64_at(t, at(arg, 8));
    let size = (24 * n) as usize;
    assert(array_size(24, u32_at(t, arg) as usize) == Ok::<usize, Error>(size));
    let items = grant(h.arenas, size);
    let vi = items.ptr;
    let a1 = allocation(h.arenas, size).1;
    assert(set![root].contains(root));
    lemma_held_range(before, h.arenas, set![root], root);
    lemma_buffer_joins(before, h.arenas, set![root], size);
    let blocks = set![root].insert(items);
    lemma_held_range(before, a1, blocks, items);
    let b1 = with_u64(h.bytes, at(p, 8), vi);
    lemma_with_u64(h.bytes, at(p, 8), vi);
    let h0 = ShadowView { arenas: a1, bytes: b1 };
    lemma_items_allocated(before, blocks, h0, p, t, arg, 0, n, root, items);
    let bufs = item_grants(a1, t, ti, 0, n);
    let h1 = drm_i915_query::items_allocated(h0, p, t, arg, 0, n).1;
    assert(blocks.contains(root) && blocks.contains(items));
    assert(bufs_clear_of(bufs, root.ptr, root.size as int));
    assert(bufs_clear_of(bufs, items.ptr, items.size as int));
    assert forall|a: u64| within(at(p, 8), 8, a) implies byte_at(h1.bytes, a) == byte_at(b1, a) by {
        if in_fields(vi, 0, n, a) {
            let j = choose|j: nat| 0 <= j < n && within(at(#[trigger] item_at(vi, j), 16), 8, a);
            lemma_item_at(vi, j, n);
        }
    }
    lemma_same_u64(h1.bytes, b1, at(p, 8));
    assert(query_laid(p, vi, bufs, t, ti, 0, n));
    lemma_query_mirrored(h1.bytes, p, t, arg, vi, bufs);
    let m = drm_i915_query::copy_result(h1.bytes, p, t, arg, Direction::t2u).1;
    lemma_query_back(t, arg, m, p, vi, bufs);
    let hm = ShadowView { arenas: h1.arenas, bytes: m };
    lemma_items_freed(before, blocks, hm, p, vi, bufs, t, ti, 0, n);
    let a3 = drm_i915_query::items_freed(hm, p, 0, n).1.arenas;
    lemma_buffer_leaves(before, a3, blocks, items, vi, size);
    assert(blocks.remove(items) =~= set![root]);
}

/// A query without items comes back and gives back.
pub proof fn lemma_query_empty_comes_back(
    before: Seq<Arena>,
    h: ShadowView,
    t: Bytes,
    arg: u64,
    root: Holding,
)
    requires
        holding(before, h.arenas, set![root]),
        root.size == 16,
        u32_at(t, arg) == 0,
    ensures
        ({
            let (r1, h1) = drm_i915_query::allocated(h, root.ptr, t, arg);
            let (r2, m) = drm_i915_query::copy_result(h1.bytes, root.ptr, t, arg, Direction::t2u);
            let (r3, back) = drm_i915_query::copy_result(t, arg, m, root.ptr, Direction::u2t);
            let (r4, after) = drm_i915_query::freed(
                ShadowView { arenas: h1.arenas, bytes: m },
                root.ptr,
            );
            &&& r1 is Ok
            &&& r2 is Ok
            &&& r3 is Ok
            &&& same_bytes(back, t)
            &&& r4 is Ok
            &&& after.bytes == m
            &&& holding(before, after.arenas, set![root])
        }),
{
    reveal(drm_i915_query::allocated);
    reveal(drm_i915_query::copy_result);
    reveal(drm_i915_query::freed);
    let p = root.ptr;
    assert(set![root].contains(root));
    lemma_held_range(before, h.arenas, set![root], root);
    assert(array_size(24, 0) == Ok::<usize, Error>(0));
    let b1 = with_u64(h.bytes, at(p, 8), PTR_NULL);
    lemma_with_u64(h.bytes, at(p, 8), PTR_NULL);
    let m = copied(b1, p, t, arg, 8);
    lemma_kept_u64(b1, p, t, arg, 8, at(p, 8));
    lemma_mirrors_copied(b1, p, t, arg, 8);
    lemma_mirrors_part(m, p, t, arg, 8, 0, 4);
    assert(at(p, 0) == p && at(arg, 0) == arg);
    lemma_mirrors_u32(m, p, t, arg);
    lemma_mirrors_back(t, t, arg, m, p, 8);
}

/// A query comes back and gives back.
pub proof fn lemma_query_comes_back(before: Seq<Arena>, h: ShadowView, t: Bytes, arg: u64, root: Holding)
    requires
        holding(before, h.arenas, set![root]),
        root.size == 16,
    ensures
        comes_back(Deep::Query, h, t, arg, root.ptr),
        gives_back(Deep::Query, before, h, t, arg, root),
{
    reveal(Deep::allocated);
    reveal(Deep::copy_result);
    reveal(Deep::freed);
    if u32_at(t, arg) == 0 {
        lemma_query_empty_comes_back(before, h, t, arg, root);
    } else if drm_i915_query::allocated(h, root.ptr, t, arg).0 is Ok {
        lemma_query_items_come_back(before, h, t, arg, root);
    }
}

/// A query whose driver leaves the copy of the argument alone leaves the
/// trusted memory as it was, and gives back all that it allocated.
pub proof fn lemma_query_loopback(h: ShadowView, t: Bytes, arg: u64)
    requires
        sound(h.arenas),
        exec2_result(Deep::Query, h, t, arg).0 is Ok,
    ensures
        ({
            let (ptr, shadow) = exec2_result(Deep::Query, h, t, arg);
            let (done, back, after) = exec2_finished(Deep::Query, t, arg, shadow, ptr->Ok_0);
            &&& done is Ok
            &&& same_bytes(back, t)
            &&& sound(after.arenas)
            &&& same_free(after.arenas, h.arenas)
            &&& same_blocks(after.arenas, h.arenas)
        }),
{
    let kind = Deep::Query;
    lemma_root_held(kind, h);
    lemma_query_comes_back(h.arenas, begun(kind, h), t, arg, grant(h.arenas, kind.size()));
    lemma_exec2_comes_back(kind, h, t, arg);
    lemma_exec2_gives_back(kind, h, t, arg);
}

} // verus!
