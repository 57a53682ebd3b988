//! The version call with a driver that leaves the copy of the argument as it
//! finds it.

use vstd::prelude::*;
use crate::buddy_alloc::Arena;
use crate::holdings::{Holding, grant, holding, lemma_three_buffers};
use crate::i915::loopback::{
    begun, comes_back, gives_back, lemma_exec2_comes_back, lemma_exec2_gives_back,
    lemma_root_held, mirrored,
};
use crate::i915::version::{drm_version, text_copied};
use crate::i915::{Deep, Direction, exec2_finished, exec2_result};
use crate::memory::{allocation, same_blocks, same_free, sound};
use crate::shadow::{ShadowView, size_of_u64};
use crate::space::{
    Bytes, at, byte_at, clear, copied, lemma_kept_u64, lemma_mirrors_back, lemma_mirrors_copied,
    lemma_mirrors_kept, lemma_mirrors_u64, lemma_same_u64, lemma_with_u64, mirrors, same_bytes,
    u64_at, with_u64, within,
};

verus! {

/// Whether the copy of a version at `p` points to the buffers at `v1`, `v2`
/// and `v3`.
pub open spec fn version_points(m: Bytes, p: u64, v1: u64, v2: u64, v3: u64) -> bool {
    u64_at(m, at(p, 24)) == v1 && u64_at(m, at(p, 40)) == v2 && u64_at(m, at(p, 56)) == v3
}

/// Whether `len` and `ptr` are the offsets of the length and of the address
/// of one of the three texts.
pub open spec fn is_text(len: u64, ptr: u64) -> bool {
    (len == 16 && ptr == 24) || (len == 32 && ptr == 40) || (len == 48 && ptr == 56)
}

/// The length of the buffer of a text of the argument at `arg`.
pub open spec fn text_len(t: Bytes, arg: u64, len: u64) -> usize {
    size_of_u64(u64_at(t, at(arg, len as int)))
}

/// Once the pointers to its three buffers have been written, the copy of a
/// version points to them.
pub proof fn lemma_version_pointers(bytes: Bytes, p: u64, v1: u64, v2: u64, v3: u64)
    requires
        p + 64 <= 0x1_0000_0000_0000_0000,
    ensures
        version_points(
            with_u64(with_u64(with_u64(bytes, at(p, 24), v1), at(p, 40), v2), at(p, 56), v3),
            p,
            v1,
            v2,
            v3,
        ),
{
    let b1 = with_u64(bytes, at(p, 24), v1);
    let b2 = with_u64(b1, at(p, 40), v2);
    let b3 = with_u64(b2, at(p, 56), v3);
    lemma_with_u64(bytes, at(p, 24), v1);
    lemma_with_u64(b1, at(p, 40), v2);
    lemma_with_u64(b2, at(p, 56), v3);
    assert forall|a: u64| within(at(p, 24), 8, a) implies byte_at(b3, a) == byte_at(b1, a) by {}
    lemma_same_u64(b3, b1, at(p, 24));
    assert forall|a: u64| within(at(p, 40), 8, a) implies byte_at(b3, a) == byte_at(b2, a) by {}
    lemma_same_u64(b3, b2, at(p, 40));
}

/// A copy that lies clear of the three pointers of the copy of a version
/// leaves them as they are.
pub proof fn lemma_version_points_kept(
    d: Bytes,
    dst: u64,
    s: Bytes,
    src: u64,
    len: nat,
    p: u64,
    v1: u64,
    v2: u64,
    v3: u64,
)
    requires
        len <= 0x1_0000_0000_0000_0000,
        version_points(d, p, v1, v2, v3),
        len > 0 ==> clear(at(p, 24), 8, dst, len as int) && clear(at(p, 40), 8, dst, len as int)
            && clear(at(p, 56), 8, dst, len as int),
    ensures
        version_points(copied(d, dst, s, src, len), p, v1, v2, v3),
{
    if len > 0 {
        lemma_kept_u64(d, dst, s, src, len, at(p, 24));
        lemma_kept_u64(d, dst, s, src, len, at(p, 40));
        lemma_kept_u64(d, dst, s, src, len, at(p, 56));
    }
}

/// What the copy out of one text is, for a copy that points to the buffer of
/// the text.
pub proof fn lemma_text_out(d: Bytes, p: u64, t: Bytes, arg: u64, len: u64, ptr: u64, v: u64)
    requires
        p + 64 <= 0x1_0000_0000_0000_0000,
        is_text(len, ptr),
        u64_at(d, at(p, ptr as int)) == v,
    ensures
        text_copied(d, p, t, arg, len, ptr, Direction::t2u) == copied(
            copied(d, at(p, len as int), t, at(arg, len as int), 8),
            v,
            t,
            u64_at(t, at(arg, ptr as int)),
            text_len(t, arg, len) as nat,
        ),
{
    reveal(text_copied);
    let d1 = copied(d, at(p, len as int), t, at(arg, len as int), 8);
    lemma_kept_u64(d, at(p, len as int), t, at(arg, len as int), 8, at(p, ptr as int));
}

/// The copy out of one text leaves the pointers of the copy as they are.
pub proof fn lemma_text_out_points(
    d: Bytes,
    p: u64,
    t: Bytes,
    arg: u64,
    len: u64,
    ptr: u64,
    v: u64,
    v1: u64,
    v2: u64,
    v3: u64,
)
    requires
        p + 64 <= 0x1_0000_0000_0000_0000,
        is_text(len, ptr),
        u64_at(d, at(p, ptr as int)) == v,
        version_points(d, p, v1, v2, v3),
        text_len(t, arg, len) > 0 ==> clear(v, text_len(t, arg, len) as int, p, 64),
    ensures
        version_points(text_copied(d, p, t, arg, len, ptr, Direction::t2u), p, v1, v2, v3),
{
    lemma_text_out(d, p, t, arg, len, ptr, v);
    let d1 = copied(d, at(p, len as int), t, at(arg, len as int), 8);
    let n = text_len(t, arg, len);
    assert(clear(at(p, 24), 8, at(p, len as int), 8));
    assert(clear(at(p, 40), 8, at(p, len as int), 8));
    assert(clear(at(p, 56), 8, at(p, len as int), 8));
    if n > 0 {
        assert(clear(at(p, 24), 8, v, n as int));
        assert(clear(at(p, 40), 8, v, n as int));
        assert(clear(at(p, 56), 8, v, n as int));
    }
    lemma_version_points_kept(d, at(p, len as int), t, at(arg, len as int), 8, p, v1, v2, v3);
    lemma_version_points_kept(
        d1,
        v,
        t,
        u64_at(t, at(arg, ptr as int)),
        text_len(t, arg, len) as nat,
        p,
        v1,
        v2,
        v3,
    );
}

/// The copy out of one text leaves a mirror that lies clear of the length and
/// of the buffer of the text as it is.
pub proof fn lemma_text_out_keeps(
    d: Bytes,
    p: u64,
    t: Bytes,
    arg: u64,
    len: u64,
    ptr: u64,
    v: u64,
    a: u64,
    x: u64,
    n: int,
)
    requires
        p + 64 <= 0x1_0000_0000_0000_0000,
        is_text(len, ptr),
        u64_at(d, at(p, ptr as int)) == v,
        mirrors(d, a, t, x, n),
        n > 0 ==> clear(a, n, at(p, len as int), 8),
        n > 0 && text_len(t, arg, len) > 0 ==> clear(a, n, v, text_len(t, arg, len) as int),
    ensures
        mirrors(text_copied(d, p, t, arg, len, ptr, Direction::t2u), a, t, x, n),
{
    lemma_text_out(d, p, t, arg, len, ptr, v);
    let d1 = copied(d, at(p, len as int), t, at(arg, len as int), 8);
    lemma_mirrors_kept(d, at(p, len as int), t, at(arg, len as int), 8, a, t, x, n);
    lemma_mirrors_kept(
        d1,
        v,
        t,
        u64_at(t, at(arg, ptr as int)),
        text_len(t, arg, len) as nat,
        a,
        t,
        x,
        n,
    );
}

/// After the copy out of one text, the length of the text and its buffer
/// mirror those of the argument.
pub proof fn lemma_text_out_mirrors(d: Bytes, p: u64, t: Bytes, arg: u64, len: u64, ptr: u64, v: u64)
    requires
        p + 64 <= 0x1_0000_0000_0000_0000,
        is_text(len, ptr),
        u64_at(d, at(p, ptr as int)) == v,
        text_len(t, arg, len) > 0 ==> clear(v, text_len(t, arg, len) as int, p, 64),
    ensures
        ({
            let m = text_copied(d, p, t, arg, len, ptr, Direction::t2u);
            &&& mirrors(m, at(p, len as int), t, at(arg, len as int), 8)
            &&& mirrors(
                m,
                v,
                t,
                u64_at(t, at(arg, ptr as int)),
                text_len(t, arg, len) as int,
            )
        }),
{
    lemma_text_out(d, p, t, arg, len, ptr, v);
    let d1 = copied(d, at(p, len as int), t, at(arg, len as int), 8);
    let n = text_len(t, arg, len);
    lemma_mirrors_copied(d, at(p, len as int), t, at(arg, len as int), 8);
    lemma_mirrors_kept(
        d1,
        v,
        t,
        u64_at(t, at(arg, ptr as int)),
        n as nat,
        at(p, len as int),
        t,
        at(arg, len as int),
        8,
    );
    lemma_mirrors_copied(d1, v, t, u64_at(t, at(arg, ptr as int)), n as nat);
}

/// The copy back of one text from a copy that mirrors the argument leaves
/// the trusted memory as it was.
pub proof fn lemma_text_back(near: Bytes, t: Bytes, arg: u64, m: Bytes, p: u64, len: u64, ptr: u64)
    requires
        is_text(len, ptr),
        same_bytes(near, t),
        mirrors(m, at(p, len as int), t, at(arg, len as int), 8),
        mirrors(
            m,
            u64_at(m, at(p, ptr as int)),
            t,
            u64_at(t, at(arg, ptr as int)),
            text_len(t, arg, len) as int,
        ),
    ensures
        same_bytes(text_copied(near, arg, m, p, len, ptr, Direction::u2t), t),
{
    reveal(text_copied);
    lemma_same_u64(near, t, at(arg, len as int));
    lemma_same_u64(near, t, at(arg, ptr as int));
    if u64_at(t, at(arg, len as int)) == 0 {
        lemma_mirrors_back(near, t, at(arg, len as int), m, at(p, len as int), 8);
    } else {
        lemma_mirrors_back(
            near,
            t,
            u64_at(t, at(arg, ptr as int)),
            m,
            u64_at(m, at(p, ptr as int)),
            text_len(t, arg, len) as nat,
        );
    }
}

/// Whether the copy `m` of a version at `p` mirrors the argument at `arg`,
/// with its three buffers at `v1`, `v2` and `v3`.
pub open spec fn version_mirrors(m: Bytes, p: u64, t: Bytes, arg: u64, v1: u64, v2: u64, v3: u64) -> bool {
    &&& version_points(m, p, v1, v2, v3)
    &&& mirrors(m, p, t, arg, 12)
    &&& mirrors(m, at(p, 16), t, at(arg, 16), 8)
    &&& mirrors(m, at(p, 32), t, at(arg, 32), 8)
    &&& mirrors(m, at(p, 48), t, at(arg, 48), 8)
    &&& mirrors(m, v1, t, u64_at(t, at(arg, 24)), text_len(t, arg, 16) as int)
    &&& mirrors(m, v2, t, u64_at(t, at(arg, 40)), text_len(t, arg, 32) as int)
    &&& mirrors(m, v3, t, u64_at(t, at(arg, 56)), text_len(t, arg, 48) as int)
}

/// Whether the buffers of a version lie clear of the copy at `p` and of each
/// other.
pub open spec fn texts_clear(p: u64, v1: u64, v2: u64, v3: u64, t: Bytes, arg: u64) -> bool {
    let (n1, n2, n3) = (text_len(t, arg, 16), text_len(t, arg, 32), text_len(t, arg, 48));
    &&& p + 64 <= 0x1_0000_0000_0000_0000
    &&& n1 > 0 ==> clear(v1, n1 as int, p, 64)
    &&& n2 > 0 ==> clear(v2, n2 as int, p, 64)
    &&& n3 > 0 ==> clear(v3, n3 as int, p, 64)
    &&& n1 > 0 && n2 > 0 ==> clear(v1, n1 as int, v2, n2 as int)
    &&& n1 > 0 && n3 > 0 ==> clear(v1, n1 as int, v3, n3 as int)
    &&& n2 > 0 && n3 > 0 ==> clear(v2, n2 as int, v3, n3 as int)
}

/// The first text goes out: the copy mirrors the version numbers, and the
/// length and the buffer of the name.
pub proof fn lemma_version_name(d: Bytes, p: u64, v1: u64, v2: u64, v3: u64, t: Bytes, arg: u64)
    requires
        texts_clear(p, v1, v2, v3, t, arg),
        version_points(d, p, v1, v2, v3),
        mirrors(d, p, t, arg, 12),
    ensures
        ({
            let m = text_copied(d, p, t, arg, 16, 24, Direction::t2u);
            &&& version_points(m, p, v1, v2, v3)
            &&& mirrors(m, p, t, arg, 12)
            &&& mirrors(m, at(p, 16), t, at(arg, 16), 8)
            &&& mirrors(m, v1, t, u64_at(t, at(arg, 24)), text_len(t, arg, 16) as int)
        }),
{
    lemma_text_out_points(d, p, t, arg, 16, 24, v1, v1, v2, v3);
    lemma_text_out_mirrors(d, p, t, arg, 16, 24, v1);
    lemma_text_out_keeps(d, p, t, arg, 16, 24, v1, p, arg, 12);
}

/// The second text goes out: the copy mirrors the length and the buffer of
/// the date as well.
pub proof fn lemma_version_date(d: Bytes, p: u64, v1: u64, v2: u64, v3: u64, t: Bytes, arg: u64)
    requires
        texts_clear(p, v1, v2, v3, t, arg),
        version_points(d, p, v1, v2, v3),
        mirrors(d, p, t, arg, 12),
        mirrors(d, at(p, 16), t, at(arg, 16), 8),
        mirrors(d, v1, t, u64_at(t, at(arg, 24)), text_len(t, arg, 16) as int),
    ensures
        ({
            let m = text_copied(d, p, t, arg, 32, 40, Direction::t2u);
            &&& version_points(m, p, v1, v2, v3)
            &&& mirrors(m, p, t, arg, 12)
            &&& mirrors(m, at(p, 16), t, at(arg, 16), 8)
            &&& mirrors(m, v1, t, u64_at(t, at(arg, 24)), text_len(t, arg, 16) as int)
            &&& mirrors(m, at(p, 32), t, at(arg, 32), 8)
            &&& mirrors(m, v2, t, u64_at(t, at(arg, 40)), text_len(t, arg, 32) as int)
        }),
{
    lemma_text_out_points(d, p, t, arg, 32, 40, v2, v1, v2, v3);
    lemma_text_out_mirrors(d, p, t, arg, 32, 40, v2);
    lemma_text_out_keeps(d, p, t, arg, 32, 40, v2, p, arg, 12);
    lemma_text_out_keeps(d, p, t, arg, 32, 40, v2, at(p, 16), at(arg, 16), 8);
    lemma_text_out_keeps(
        d,
        p,
        t,
        arg,
        32,
        40,
        v2,
        v1,
        u64_at(t, at(arg, 24)),
        text_len(t, arg, 16) as int,
    );
}

/// The third text goes out: the copy mirrors the argument.
pub proof fn lemma_version_desc(d: Bytes, p: u64, v1: u64, v2: u64, v3: u64, t: Bytes, arg: u64)
    requires
        texts_clear(p, v1, v2, v3, t, arg),
        version_points(d, p, v1, v2, v3),
        mirrors(d, p, t, arg, 12),
        mirrors(d, at(p, 16), t, at(arg, 16), 8),
        mirrors(d, v1, t, u64_at(t, at(arg, 24)), text_len(t, arg, 16) as int),
        mirrors(d, at(p, 32), t, at(arg, 32), 8),
        mirrors(d, v2, t, u64_at(t, at(arg, 40)), text_len(t, arg, 32) as int),
    ensures
        version_mirrors(
            text_copied(d, p, t, arg, 48, 56, Direction::t2u),
            p,
            t,
            arg,
            v1,
            v2,
            v3,
        ),
{
    lemma_text_out_points(d, p, t, arg, 48, 56, v3, v1, v2, v3);
    lemma_text_out_mirrors(d, p, t, arg, 48, 56, v3);
    lemma_text_out_keeps(d, p, t, arg, 48, 56, v3, p, arg, 12);
    lemma_text_out_keeps(d, p, t, arg, 48, 56, v3, at(p, 16), at(arg, 16), 8);
    lemma_text_out_keeps(d, p, t, arg, 48, 56, v3, at(p, 32), at(arg, 32), 8);
    lemma_text_out_keeps(
        d,
        p,
        t,
        arg,
        48,
        56,
        v3,
        v1,
        u64_at(t, at(arg, 24)),
        text_len(t, arg, 16) as int,
    );
    lemma_text_out_keeps(
        d,
        p,
        t,
        arg,
        48,
        56,
        v3,
        v2,
        u64_at(t, at(arg, 40)),
        text_len(t, arg, 32) as int,
    );
}

/// The copy of a version after the first half mirrors the argument.
pub proof fn lemma_version_mirrored(bytes: Bytes, p: u64, v1: u64, v2: u64, v3: u64, t: Bytes, arg: u64)
    requires
        texts_clear(p, v1, v2, v3, t, arg),
    ensures
        version_mirrors(
            drm_version::copy_result(
                with_u64(with_u64(with_u64(bytes, at(p, 24), v1), at(p, 40), v2), at(p, 56), v3),
                p,
                t,
                arg,
                Direction::t2u,
            ),
            p,
            t,
            arg,
            v1,
            v2,
            v3,
        ),
{
    let b = with_u64(with_u64(with_u64(bytes, at(p, 24), v1), at(p, 40), v2), at(p, 56), v3);
    lemma_version_pointers(bytes, p, v1, v2, v3);
    let d0 = copied(b, p, t, arg, 12);
    lemma_version_points_kept(b, p, t, arg, 12, p, v1, v2, v3);
    lemma_mirrors_copied(b, p, t, arg, 12);
    let d1 = text_copied(d0, p, t, arg, 16, 24, Direction::t2u);
    lemma_version_name(d0, p, v1, v2, v3, t, arg);
    let d2 = text_copied(d1, p, t, arg, 32, 40, Direction::t2u);
    lemma_version_date(d1, p, v1, v2, v3, t, arg);
    let d3 = text_copied(d2, p, t, arg, 48, 56, Direction::t2u);
    lemma_version_desc(d2, p, v1, v2, v3, t, arg);
    assert(drm_version::copy_result(b, p, t, arg, Direction::t2u) == d3) by {
        reveal(drm_version::copy_result);
    }
}

/// The copy back of a version from a copy that mirrors the argument leaves
/// the trusted memory as it was.
pub proof fn lemma_version_back(t: Bytes, arg: u64, m: Bytes, p: u64, v1: u64, v2: u64, v3: u64)
    requires
        version_mirrors(m, p, t, arg, v1, v2, v3),
    ensures
        same_bytes(drm_version::copy_result(t, arg, m, p, Direction::u2t), t),
{
    reveal(drm_version::copy_result);
    let t0 = copied(t, arg, m, p, 12);
    lemma_mirrors_back(t, t, arg, m, p, 12);
    let t1 = text_copied(t0, arg, m, p, 16, 24, Direction::u2t);
    lemma_text_back(t0, t, arg, m, p, 16, 24);
    let t2 = text_copied(t1, arg, m, p, 32, 40, Direction::u2t);
    lemma_text_back(t1, t, arg, m, p, 32, 40);
    lemma_text_back(t2, t, arg, m, p, 48, 56);
}

/// A version call comes back and gives back.
pub proof fn lemma_version_comes_back(before: Seq<Arena>, h: ShadowView, t: Bytes, arg: u64, root: Holding)
    requires
        holding(before, h.arenas, set![root]),
        root.size == 64,
    ensures
        comes_back(Deep::Version, h, t, arg, root.ptr),
        gives_back(Deep::Version, before, h, t, arg, root),
{
    reveal(Deep::allocated);
    reveal(Deep::copy_result);
    reveal(Deep::freed);
    reveal(drm_version::allocated);
    reveal(drm_version::freed);
    let p = root.ptr;
    let (n1, n2, n3) = (text_len(t, arg, 16), text_len(t, arg, 32), text_len(t, arg, 48));
    if mirrored(Deep::Version, h, t, arg, p) is Some {
        let (r1, a1) = allocation(h.arenas, n1);
        let (r2, a2) = allocation(a1, n2);
        let (r3, a3) = allocation(a2, n3);
        let (v1, v2, v3) = (r1->Ok_0, r2->Ok_0, r3->Ok_0);
        lemma_three_buffers(before, h.arenas, root, n1, n2, n3);
        assert(texts_clear(p, v1, v2, v3, t, arg));
        lemma_version_mirrored(h.bytes, p, v1, v2, v3, t, arg);
        let m = drm_version::copy_result(
            with_u64(with_u64(with_u64(h.bytes, at(p, 24), v1), at(p, 40), v2), at(p, 56), v3),
            p,
            t,
            arg,
            Direction::t2u,
        );
        lemma_version_back(t, arg, m, p, v1, v2, v3);
        lemma_mirrors_u64(m, at(p, 16), t, at(arg, 16));
        lemma_mirrors_u64(m, at(p, 32), t, at(arg, 32));
        lemma_mirrors_u64(m, at(p, 48), t, at(arg, 48));
    }
}

/// A version call whose driver leaves the copy of the argument alone leaves
/// the trusted memory as it was, and gives back all that it allocated.
pub proof fn lemma_version_loopback(h: ShadowView, t: Bytes, arg: u64)
    requires
        sound(h.arenas),
        exec2_result(Deep::Version, h, t, arg).0 is Ok,
    ensures
        ({
            let (ptr, shadow) = exec2_result(Deep::Version, h, t, arg);
            let (done, back, after) = exec2_finished(Deep::Version, t, arg, shadow, ptr->Ok_0);
            &&& done is Ok
            &&& same_bytes(back, t)
            &&& sound(after.arenas)
            &&& same_free(after.arenas, h.arenas)
            &&& same_blocks(after.arenas, h.arenas)
        }),
{
    let kind = Deep::Version;
    lemma_root_held(kind, h);
    lemma_version_comes_back(h.arenas, begun(kind, h), t, arg, grant(h.arenas, kind.size()));
    lemma_exec2_comes_back(kind, h, t, arg);
    lemma_exec2_gives_back(kind, h, t, arg);
}

} // verus!
