//! Asking for a length, then for the answer.
//!
//! A text of the version, or an item of a query, whose length is zero asks
//! for its length: what the driver writes to the length of the copy comes
//! back, and nothing else of it. With a length, what the driver writes to
//! the buffer of the copy comes back. So a caller that asks for the lengths,
//! and asks again with the lengths that came back and with buffers as long,
//! is given the answers.

use vstd::prelude::*;
use crate::error::Error;
use crate::i915::loopback::lemma_scalars_mirrored;
use crate::i915::loopback_query::{item_at, lemma_item_at};
use crate::i915::loopback_texts::{is_text, text_len, texts_clear};
use crate::i915::query::{drm_i915_query, drm_i915_query_item};
use crate::i915::version::{drm_version, text_copied};
use crate::i915::{Deep, Direction, exec2_finished};
use crate::shadow::{ShadowView, array_size};
use crate::space::{
    Bytes, at, byte_at, clear, copied, i32_at, lemma_copied_byte, lemma_mirrors_copied,
    lemma_mirrors_framed, lemma_mirrors_i32, lemma_mirrors_none, lemma_same_i32, lemma_same_u64,
    mirrors, u32_at, u64_at, within,
};

verus! {

/// Whether the text of the argument at `arg` whose length lies `len` bytes
/// into it asks for its length.
pub open spec fn text_asks(t: Bytes, arg: u64, len: u64) -> bool {
    u64_at(t, at(arg, len as int)) == 0
}

/// Whether the buffers of the three texts of the argument at `arg` lie clear
/// of the argument and of each other.
pub open spec fn version_apart(t: Bytes, arg: u64) -> bool {
    texts_clear(
        arg,
        u64_at(t, at(arg, 24)),
        u64_at(t, at(arg, 40)),
        u64_at(t, at(arg, 56)),
        t,
        arg,
    )
}

/// Whether `a` is a byte that the copy back of a text writes: one of its
/// length where it asks for the length, else one of its buffer.
pub open spec fn text_written(t: Bytes, arg: u64, len: u64, ptr: u64, a: u64) -> bool {
    if text_asks(t, arg, len) {
        within(at(arg, len as int), 8, a)
    } else {
        within(u64_at(t, at(arg, ptr as int)), text_len(t, arg, len) as int, a)
    }
}

/// Whether a text has come back to the trusted memory `back` from the copy
/// at `p` in `m`: it points to its buffer as before; where it asked for its
/// length, it holds the length that the copy holds; else it holds its length
/// as before, and its buffer holds what the buffer of the copy holds.
pub open spec fn text_landed(
    back: Bytes,
    t: Bytes,
    arg: u64,
    m: Bytes,
    p: u64,
    len: u64,
    ptr: u64,
) -> bool {
    &&& u64_at(back, at(arg, ptr as int)) == u64_at(t, at(arg, ptr as int))
    &&& if text_asks(t, arg, len) {
        u64_at(back, at(arg, len as int)) == u64_at(m, at(p, len as int))
    } else {
        &&& u64_at(back, at(arg, len as int)) == u64_at(t, at(arg, len as int))
        &&& mirrors(
            back,
            u64_at(t, at(arg, ptr as int)),
            m,
            u64_at(m, at(p, ptr as int)),
            text_len(t, arg, len) as int,
        )
    }
}

/// The copy back of one text of an argument that still holds its length and
/// the address of its buffer: the text comes back, and no other byte changes
/// than those that it writes.
pub proof fn lemma_text_lands(d: Bytes, t: Bytes, arg: u64, m: Bytes, p: u64, len: u64, ptr: u64)
    requires
        is_text(len, ptr),
        version_apart(t, arg),
        u64_at(d, at(arg, len as int)) == u64_at(t, at(arg, len as int)),
        u64_at(d, at(arg, ptr as int)) == u64_at(t, at(arg, ptr as int)),
    ensures
        ({
            let e = text_copied(d, arg, m, p, len, ptr, Direction::u2t);
            &&& text_landed(e, t, arg, m, p, len, ptr)
            &&& forall|a: u64| !text_written(t, arg, len, ptr, a) ==> byte_at(e, a) == byte_at(d, a)
        }),
{
    reveal(text_copied);
    let e = text_copied(d, arg, m, p, len, ptr, Direction::u2t);
    let buffer = u64_at(t, at(arg, ptr as int));
    let n = text_len(t, arg, len);
    if text_asks(t, arg, len) {
        lemma_scalars_mirrored(d, at(arg, len as int), m, at(p, len as int), 8, 0);
        assert(at(at(arg, len as int), 0) == at(arg, len as int));
        assert(at(at(p, len as int), 0) == at(p, len as int));
        assert forall|a: u64| !within(at(arg, len as int), 8, a) implies byte_at(e, a) == byte_at(
            d,
            a,
        ) by {
            lemma_copied_byte(d, at(arg, len as int), m, at(p, len as int), 8, a);
        }
        lemma_same_u64(e, d, at(arg, ptr as int));
    } else {
        assert(e == copied(d, buffer, m, u64_at(m, at(p, ptr as int)), n as nat));
        lemma_mirrors_copied(d, buffer, m, u64_at(m, at(p, ptr as int)), n as nat);
        assert forall|a: u64| !within(buffer, n as int, a) implies byte_at(e, a) == byte_at(d, a) by {
            lemma_copied_byte(d, buffer, m, u64_at(m, at(p, ptr as int)), n as nat, a);
        }
        lemma_same_u64(e, d, at(arg, ptr as int));
        lemma_same_u64(e, d, at(arg, len as int));
    }
}

/// A text that has come back stays so in a memory that holds the same bytes
/// in its length, in the address of its buffer and in its buffer.
pub proof fn lemma_text_landed_kept(
    d: Bytes,
    e: Bytes,
    t: Bytes,
    arg: u64,
    m: Bytes,
    p: u64,
    len: u64,
    ptr: u64,
)
    requires
        text_landed(d, t, arg, m, p, len, ptr),
        forall|a: u64|
            within(at(arg, len as int), 8, a) || within(at(arg, ptr as int), 8, a) || within(
                u64_at(t, at(arg, ptr as int)),
                text_len(t, arg, len) as int,
                a,
            ) ==> byte_at(e, a) == byte_at(d, a),
    ensures
        text_landed(e, t, arg, m, p, len, ptr),
{
    lemma_same_u64(e, d, at(arg, len as int));
    lemma_same_u64(e, d, at(arg, ptr as int));
    if !text_asks(t, arg, len) {
        lemma_mirrors_framed(
            d,
            e,
            u64_at(t, at(arg, ptr as int)),
            m,
            u64_at(m, at(p, ptr as int)),
            text_len(t, arg, len) as int,
        );
    }
}

/// What comes back of a version whose buffers lie clear of the argument and
/// of each other, whatever the driver left in the copy at `ptr`: the three
/// numbers that the copy holds, and each text. No other byte of the trusted
/// memory changes.
pub proof fn lemma_version_answers(t: Bytes, arg: u64, h: ShadowView, ptr: u64)
    requires
        version_apart(t, arg),
    ensures
        ({
            let back = exec2_finished(Deep::Version, t, arg, h, ptr).1;
            &&& mirrors(back, arg, h.bytes, ptr, 12)
            &&& text_landed(back, t, arg, h.bytes, ptr, 16, 24)
            &&& text_landed(back, t, arg, h.bytes, ptr, 32, 40)
            &&& text_landed(back, t, arg, h.bytes, ptr, 48, 56)
            &&& forall|a: u64|
                !within(arg, 12, a) && !text_written(t, arg, 16, 24, a) && !text_written(
                    t,
                    arg,
                    32,
                    40,
                    a,
                ) && !text_written(t, arg, 48, 56, a) ==> byte_at(back, a) == byte_at(t, a)
        }),
{
    reveal(Deep::copy_result);
    reveal(drm_version::copy_result);
    let m = h.bytes;
    let p = ptr;
    let d1 = copied(t, arg, m, p, 12);
    lemma_mirrors_copied(t, arg, m, p, 12);
    assert forall|a: u64| !within(arg, 12, a) implies byte_at(d1, a) == byte_at(t, a) by {
        lemma_copied_byte(t, arg, m, p, 12, a);
    }
    lemma_same_u64(d1, t, at(arg, 16));
    lemma_same_u64(d1, t, at(arg, 24));
    lemma_text_lands(d1, t, arg, m, p, 16, 24);
    let d2 = text_copied(d1, arg, m, p, 16, 24, Direction::u2t);
    lemma_same_u64(d2, t, at(arg, 32));
    lemma_same_u64(d2, t, at(arg, 40));
    lemma_text_lands(d2, t, arg, m, p, 32, 40);
    let d3 = text_copied(d2, arg, m, p, 32, 40, Direction::u2t);
    lemma_same_u64(d3, t, at(arg, 48));
    lemma_same_u64(d3, t, at(arg, 56));
    lemma_text_lands(d3, t, arg, m, p, 48, 56);
    let back = text_copied(d3, arg, m, p, 48, 56, Direction::u2t);
    lemma_text_landed_kept(d2, d3, t, arg, m, p, 16, 24);
    lemma_text_landed_kept(d3, back, t, arg, m, p, 16, 24);
    lemma_text_landed_kept(d3, back, t, arg, m, p, 32, 40);
    lemma_mirrors_framed(d1, back, arg, m, p, 12);
}

/// Whether the item `j` of the trusted array at `ti` asks for the length of
/// its answer.
pub open spec fn item_asks(t: Bytes, ti: u64, j: nat) -> bool {
    i32_at(t, at(item_at(ti, j), 8)) == 0
}

/// The length of the answer that the copy of the item `j` in the array at
/// `vi` of `m` holds, for a trusted item that has a buffer: without such an
/// answer, zero.
pub open spec fn answered(t: Bytes, ti: u64, m: Bytes, vi: u64, j: nat) -> int {
    if !item_asks(t, ti, j) && i32_at(m, at(item_at(vi, j), 8)) > 0 {
        i32_at(m, at(item_at(vi, j), 8)) as int
    } else {
        0
    }
}

/// The address of the buffer of the item `j` of the trusted array at `ti`.
pub open spec fn answer_at(t: Bytes, ti: u64, j: nat) -> u64 {
    u64_at(t, at(item_at(ti, j), 16))
}

/// Whether the trusted argument at `arg`, the array of its items, as many
/// as the copy at `p` in `m` has, and the buffers of the answers that the
/// copy holds lie clear of each other.
pub open spec fn query_apart(t: Bytes, arg: u64, m: Bytes, p: u64) -> bool {
    let n = u32_at(m, p) as nat;
    let ti = u64_at(t, at(arg, 8));
    let vi = u64_at(m, at(p, 8));
    &&& 24 * n <= usize::MAX
    &&& clear(ti, 24 * n as int, arg, 16)
    &&& forall|j: nat|
        j < n && #[trigger] answered(t, ti, m, vi, j) > 0 ==> clear(
            answer_at(t, ti, j),
            answered(t, ti, m, vi, j),
            arg,
            16,
        ) && clear(answer_at(t, ti, j), answered(t, ti, m, vi, j), ti, 24 * n as int)
    &&& forall|j: nat, k: nat|
        j < k < n && #[trigger] answered(t, ti, m, vi, j) > 0 && #[trigger] answered(
            t,
            ti,
            m,
            vi,
            k,
        ) > 0 ==> clear(
            answer_at(t, ti, j),
            answered(t, ti, m, vi, j),
            answer_at(t, ti, k),
            answered(t, ti, m, vi, k),
        )
}

/// Whether `a` is a byte that the copy back of the item `j` writes: one of
/// its length where it asks for it, else one of its scalar fields or of its
/// answer.
pub open spec fn item_written(t: Bytes, ti: u64, m: Bytes, vi: u64, j: nat, a: u64) -> bool {
    if item_asks(t, ti, j) {
        within(at(item_at(ti, j), 8), 4, a)
    } else {
        within(item_at(ti, j), 16, a) || within(
            answer_at(t, ti, j),
            answered(t, ti, m, vi, j),
            a,
        )
    }
}

/// Whether `a` is a byte that the copy back of one of the items from `i` up
/// to `n` writes.
pub open spec fn items_written(t: Bytes, ti: u64, m: Bytes, vi: u64, i: nat, n: nat, a: u64) -> bool {
    exists|j: nat| i <= j < n && #[trigger] item_written(t, ti, m, vi, j, a)
}

/// Whether the item `j` has come back to the trusted memory `back`: it
/// points to its buffer as before; where it asked for the length of its
/// answer, it holds the length that its copy holds; else it holds the scalar
/// fields of its copy, and its buffer holds the answer, as long as the copy
/// says.
pub open spec fn item_landed(back: Bytes, t: Bytes, ti: u64, m: Bytes, vi: u64, j: nat) -> bool {
    &&& u64_at(back, at(item_at(ti, j), 16)) == answer_at(t, ti, j)
    &&& if item_asks(t, ti, j) {
        i32_at(back, at(item_at(ti, j), 8)) == i32_at(m, at(item_at(vi, j), 8))
    } else {
        &&& mirrors(back, item_at(ti, j), m, item_at(vi, j), 16)
        &&& mirrors(
            back,
            answer_at(t, ti, j),
            m,
            u64_at(m, at(item_at(vi, j), 16)),
            answered(t, ti, m, vi, j),
        )
    }
}

/// The copy back of one item that is still as the trusted memory holds it:
/// the item comes back, and no other byte changes than those that it writes.
pub proof fn lemma_item_lands(d: Bytes, t: Bytes, ti: u64, m: Bytes, vi: u64, j: nat)
    requires
        forall|a: u64| within(item_at(ti, j), 24, a) ==> byte_at(d, a) == byte_at(t, a),
        answered(t, ti, m, vi, j) > 0 ==> clear(
            answer_at(t, ti, j),
            answered(t, ti, m, vi, j),
            item_at(ti, j),
            24,
        ),
        item_at(ti, j) + 24 <= 0x1_0000_0000_0000_0000,
    ensures
        ({
            let e = drm_i915_query::item_copied(
                d,
                item_at(ti, j),
                m,
                item_at(vi, j),
                Direction::u2t,
            );
            &&& item_landed(e, t, ti, m, vi, j)
            &&& forall|a: u64| !item_written(t, ti, m, vi, j, a) ==> byte_at(e, a) == byte_at(d, a)
        }),
{
    reveal(drm_i915_query_item::copy_result);
    let it = item_at(ti, j);
    let ui = item_at(vi, j);
    let e = drm_i915_query::item_copied(d, it, m, ui, Direction::u2t);
    lemma_same_i32(d, t, at(it, 8));
    lemma_same_u64(d, t, at(it, 16));
    if item_asks(t, ti, j) {
        lemma_mirrors_copied(d, at(it, 8), m, at(ui, 8), 4);
        lemma_mirrors_i32(e, at(it, 8), m, at(ui, 8));
        assert forall|a: u64| !within(at(it, 8), 4, a) implies byte_at(e, a) == byte_at(d, a) by {
            lemma_copied_byte(d, at(it, 8), m, at(ui, 8), 4, a);
        }
        lemma_same_u64(e, d, at(it, 16));
    } else {
        let d1 = copied(d, it, m, ui, 16);
        let len = answered(t, ti, m, vi, j);
        lemma_mirrors_copied(d, it, m, ui, 16);
        assert forall|a: u64| !within(it, 16, a) implies byte_at(d1, a) == byte_at(d, a) by {
            lemma_copied_byte(d, it, m, ui, 16, a);
        }
        lemma_same_u64(d1, d, at(it, 16));
        if len > 0 {
            let data = answer_at(t, ti, j);
            let from = u64_at(m, at(ui, 16));
            assert(e == copied(d1, data, m, from, len as nat));
            lemma_mirrors_copied(d1, data, m, from, len as nat);
            assert forall|a: u64| !within(data, len, a) implies byte_at(e, a) == byte_at(d1, a) by {
                lemma_copied_byte(d1, data, m, from, len as nat, a);
            }
            lemma_mirrors_framed(d1, e, it, m, ui, 16);
            lemma_same_u64(e, d1, at(it, 16));
        } else {
            lemma_mirrors_none(e, answer_at(t, ti, j), m, u64_at(m, at(ui, 16)));
        }
    }
}

/// An item that has come back stays so in a memory that holds the same
/// bytes in the item and in its answer.
pub proof fn lemma_item_landed_kept(d: Bytes, e: Bytes, t: Bytes, ti: u64, m: Bytes, vi: u64, j: nat)
    requires
        item_landed(d, t, ti, m, vi, j),
        forall|a: u64|
            within(item_at(ti, j), 24, a) || within(
                answer_at(t, ti, j),
                answered(t, ti, m, vi, j),
                a,
            ) ==> byte_at(e, a) == byte_at(d, a),
        item_at(ti, j) + 24 <= 0x1_0000_0000_0000_0000,
    ensures
        item_landed(e, t, ti, m, vi, j),
{
    let it = item_at(ti, j);
    lemma_same_u64(e, d, at(it, 16));
    lemma_same_i32(e, d, at(it, 8));
    if !item_asks(t, ti, j) {
        lemma_mirrors_framed(d, e, it, m, item_at(vi, j), 16);
        lemma_mirrors_framed(
            d,
            e,
            answer_at(t, ti, j),
            m,
            u64_at(m, at(item_at(vi, j), 16)),
            answered(t, ti, m, vi, j),
        );
    }
}

/// A byte that the copy back of an item writes is a byte of the item or of
/// its answer, and no byte of the argument, of another item or of another
/// answer.
pub proof fn lemma_written_apart(t: Bytes, arg: u64, m: Bytes, p: u64, j: nat, k: nat, a: u64)
    requires
        query_apart(t, arg, m, p),
        j < u32_at(m, p),
        k < u32_at(m, p),
        j != k,
        item_written(t, u64_at(t, at(arg, 8)), m, u64_at(m, at(p, 8)), j, a),
    ensures
        !within(arg, 16, a),
        !within(item_at(u64_at(t, at(arg, 8)), k), 24, a),
        !within(
            answer_at(t, u64_at(t, at(arg, 8)), k),
            answered(t, u64_at(t, at(arg, 8)), m, u64_at(m, at(p, 8)), k),
            a,
        ),
{
    let n = u32_at(m, p) as nat;
    let ti = u64_at(t, at(arg, 8));
    let vi = u64_at(m, at(p, 8));
    lemma_item_at(ti, j, n);
    lemma_item_at(ti, k, n);
    assert(24 * j + 24 <= 24 * k || 24 * k + 24 <= 24 * j);
    if answered(t, ti, m, vi, j) > 0 && answered(t, ti, m, vi, k) > 0 {
        if j < k {
            assert(clear(
                answer_at(t, ti, j),
                answered(t, ti, m, vi, j),
                answer_at(t, ti, k),
                answered(t, ti, m, vi, k),
            ));
        } else {
            assert(clear(
                answer_at(t, ti, k),
                answered(t, ti, m, vi, k),
                answer_at(t, ti, j),
                answered(t, ti, m, vi, j),
            ));
        }
    }
}

/// The copy back of the items from `i` on, which are still as the trusted
/// memory holds them: every one of them comes back, and no other byte
/// changes than those that they write.
pub proof fn lemma_items_land(d: Bytes, t: Bytes, arg: u64, m: Bytes, p: u64, i: nat)
    requires
        query_apart(t, arg, m, p),
        i <= u32_at(m, p),
        u64_at(d, at(arg, 8)) == u64_at(t, at(arg, 8)),
        forall|j: nat, a: u64|
            i <= j < u32_at(m, p) && #[trigger] within(
                item_at(u64_at(t, at(arg, 8)), j),
                24,
                a,
            ) ==> byte_at(d, a) == byte_at(t, a),
    ensures
        ({
            let n = u32_at(m, p) as nat;
            let ti = u64_at(t, at(arg, 8));
            let vi = u64_at(m, at(p, 8));
            let (r, back) = drm_i915_query::items_copied(d, arg, m, p, Direction::u2t, i, n);
            &&& r is Ok
            &&& forall|j: nat| i <= j < n ==> #[trigger] item_landed(back, t, ti, m, vi, j)
            &&& forall|a: u64|
                !items_written(t, ti, m, vi, i, n, a) ==> byte_at(back, a) == byte_at(d, a)
        }),
    decreases u32_at(m, p) - i,
{
    let n = u32_at(m, p) as nat;
    let ti = u64_at(t, at(arg, 8));
    let vi = u64_at(m, at(p, 8));
    if i < n {
        let it = item_at(ti, i);
        lemma_item_at(ti, i, n);
        assert(array_size(24, i as usize) == Ok::<usize, Error>((24 * i) as usize));
        assert(at(ti, ((24 * i) as usize) as int) == it);
        assert(at(vi, ((24 * i) as usize) as int) == item_at(vi, i));
        assert(within(it, 24, it));
        assert forall|a: u64| within(it, 24, a) implies byte_at(d, a) == byte_at(t, a) by {
            assert(within(item_at(ti, i), 24, a));
        }
        if answered(t, ti, m, vi, i) > 0 {
            assert(clear(answer_at(t, ti, i), answered(t, ti, m, vi, i), ti, 24 * n as int));
        }
        lemma_item_lands(d, t, ti, m, vi, i);
        let e = drm_i915_query::item_copied(d, it, m, item_at(vi, i), Direction::u2t);
        assert forall|a: u64| within(arg, 16, a) implies byte_at(e, a) == byte_at(d, a) by {
            if item_written(t, ti, m, vi, i, a) {
                lemma_written_outside(t, arg, m, p, i, a);
            }
        }
        lemma_same_u64(e, d, at(arg, 8));
        assert forall|j: nat, a: u64|
            i + 1 <= j < n && #[trigger] within(item_at(ti, j), 24, a) implies byte_at(e, a)
            == byte_at(t, a) by {
            if item_written(t, ti, m, vi, i, a) {
                lemma_written_apart(t, arg, m, p, i, j, a);
            }
        }
        lemma_items_land(e, t, arg, m, p, i + 1);
        let back = drm_i915_query::items_copied(e, arg, m, p, Direction::u2t, i + 1, n).1;
        assert forall|a: u64|
            within(it, 24, a) || within(
                answer_at(t, ti, i),
                answered(t, ti, m, vi, i),
                a,
            ) implies byte_at(back, a) == byte_at(e, a) by {
            if items_written(t, ti, m, vi, i + 1, n, a) {
                let j = choose|j: nat| i + 1 <= j < n && #[trigger] item_written(t, ti, m, vi, j, a);
                lemma_written_apart(t, arg, m, p, j, i, a);
            }
        }
        lemma_item_landed_kept(e, back, t, ti, m, vi, i);
        assert forall|a: u64| !items_written(t, ti, m, vi, i, n, a) implies byte_at(back, a)
            == byte_at(d, a) by {
            assert(!item_written(t, ti, m, vi, i, a));
            if items_written(t, ti, m, vi, i + 1, n, a) {
                let j = choose|j: nat| i + 1 <= j < n && #[trigger] item_written(t, ti, m, vi, j, a);
                assert(item_written(t, ti, m, vi, j, a));
            }
        }
        assert forall|j: nat| i <= j < n implies #[trigger] item_landed(back, t, ti, m, vi, j) by {}
    }
}

/// A byte that the copy back of an item writes is no byte of the argument.
pub proof fn lemma_written_outside(t: Bytes, arg: u64, m: Bytes, p: u64, j: nat, a: u64)
    requires
        query_apart(t, arg, m, p),
        j < u32_at(m, p),
        item_written(t, u64_at(t, at(arg, 8)), m, u64_at(m, at(p, 8)), j, a),
    ensures
        !within(arg, 16, a),
{
    lemma_item_at(u64_at(t, at(arg, 8)), j, u32_at(m, p) as nat);
}

/// What comes back of a query whose argument, items and answers lie clear of
/// each other, whatever the driver left in the copy at `ptr`: the number of
/// items and the flags that the copy holds, and every item. The argument
/// points to its items as before, and no other byte of the trusted memory
/// changes.
pub proof fn lemma_query_answers(t: Bytes, arg: u64, h: ShadowView, ptr: u64)
    requires
        query_apart(t, arg, h.bytes, ptr),
    ensures
        ({
            let n = u32_at(h.bytes, ptr) as nat;
            let ti = u64_at(t, at(arg, 8));
            let vi = u64_at(h.bytes, at(ptr, 8));
            let back = exec2_finished(Deep::Query, t, arg, h, ptr).1;
            &&& mirrors(back, arg, h.bytes, ptr, 8)
            &&& u64_at(back, at(arg, 8)) == ti
            &&& forall|j: nat| j < n ==> #[trigger] item_landed(back, t, ti, h.bytes, vi, j)
            &&& forall|a: u64|
                !within(arg, 8, a) && !items_written(t, ti, h.bytes, vi, 0, n, a) ==> byte_at(
                    back,
                    a,
                ) == byte_at(t, a)
        }),
{
    reveal(Deep::copy_result);
    reveal(drm_i915_query::copy_result);
    let m = h.bytes;
    let n = u32_at(m, ptr) as nat;
    let ti = u64_at(t, at(arg, 8));
    let vi = u64_at(m, at(ptr, 8));
    let d1 = copied(t, arg, m, ptr, 8);
    lemma_mirrors_copied(t, arg, m, ptr, 8);
    assert forall|a: u64| !within(arg, 8, a) implies byte_at(d1, a) == byte_at(t, a) by {
        lemma_copied_byte(t, arg, m, ptr, 8, a);
    }
    lemma_same_u64(d1, t, at(arg, 8));
    assert forall|j: nat, a: u64| j < n && #[trigger] within(item_at(ti, j), 24, a) implies byte_at(
        d1,
        a,
    ) == byte_at(t, a) by {
        lemma_item_at(ti, j, n);
    }
    lemma_items_land(d1, t, arg, m, ptr, 0);
    let back = drm_i915_query::items_copied(d1, arg, m, ptr, Direction::u2t, 0, n).1;
    assert forall|a: u64| within(arg, 16, a) implies byte_at(back, a) == byte_at(d1, a) by {
        if items_written(t, ti, m, vi, 0, n, a) {
            let j = choose|j: nat| 0 <= j < n && #[trigger] item_written(t, ti, m, vi, j, a);
            lemma_written_outside(t, arg, m, ptr, j, a);
        }
    }
    lemma_mirrors_framed(d1, back, arg, m, ptr, 8);
    lemma_same_u64(back, d1, at(arg, 8));
}

} // verus!
