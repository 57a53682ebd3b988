//! Protected-content operations with a driver that leaves the copy of the
//! argument as it finds it.

use vstd::prelude::*;
use crate::buddy_alloc::Arena;
use crate::holdings::{Holding, grant, holding, lemma_three_buffers};
use crate::i915::loopback::{
    begun, comes_back, gives_back, lemma_buffer_held, lemma_exec2_comes_back,
    lemma_exec2_gives_back, lemma_root_held,
};
use crate::i915::pxp::{PXP_ACTION_TEE_IO_MESSAGE, prelim_drm_i915_pxp_ops};
use crate::i915::{Deep, Direction, exec2_finished, exec2_result};
use crate::memory::{allocation, same_blocks, same_free, sound};
use crate::shadow::ShadowView;
use crate::space::{
    Bytes, at, clear, copied, lemma_kept_u64, lemma_mirrors_back, lemma_mirrors_copied,
    lemma_mirrors_kept, lemma_mirrors_part, lemma_mirrors_u32, lemma_put_kept_u64, lemma_same_u64,
    lemma_with_u64, mirrors, same_bytes, u32_at, u64_at, with_u64,
};

verus! {

/// Whether the copy of an operation at `p` points to its parameters at `vd`.
pub open spec fn ops_points(m: Bytes, p: u64, vd: u64) -> bool {
    u64_at(m, at(p, 8)) == vd
}

/// The copy of an operation with plain parameters after the first half: it
/// mirrors action and status, points to its parameters, and the parameters
/// mirror those of the argument.
pub proof fn lemma_plain_mirrored(bytes: Bytes, p: u64, vd: u64, t: Bytes, arg: u64, size: usize)
    requires
        p + 16 <= 0x1_0000_0000_0000_0000,
        size > 0,
        clear(vd, size as int, p, 16),
    ensures
        ({
            let d1 = copied(with_u64(bytes, at(p, 8), vd), p, t, arg, 8);
            let m = copied(d1, u64_at(d1, at(p, 8)), t, u64_at(t, at(arg, 8)), size as nat);
            &&& mirrors(m, p, t, arg, 8)
            &&& ops_points(m, p, vd)
            &&& mirrors(m, vd, t, u64_at(t, at(arg, 8)), size as int)
        }),
{
    let b0 = with_u64(bytes, at(p, 8), vd);
    let d1 = copied(b0, p, t, arg, 8);
    let tp = u64_at(t, at(arg, 8));
    lemma_with_u64(bytes, at(p, 8), vd);
    lemma_kept_u64(b0, p, t, arg, 8, at(p, 8));
    lemma_mirrors_copied(b0, p, t, arg, 8);
    lemma_kept_u64(d1, vd, t, tp, size as nat, at(p, 8));
    lemma_mirrors_kept(d1, vd, t, tp, size as nat, p, t, arg, 8);
    lemma_mirrors_copied(d1, vd, t, tp, size as nat);
}

/// The copy back of an operation with plain parameters from a copy that
/// mirrors the argument leaves the trusted memory as it was.
pub proof fn lemma_plain_back(t: Bytes, arg: u64, m: Bytes, p: u64, vd: u64, size: usize)
    requires
        mirrors(m, p, t, arg, 8),
        ops_points(m, p, vd),
        mirrors(m, vd, t, u64_at(t, at(arg, 8)), size as int),
    ensures
        ({
            let t1 = copied(t, arg, m, p, 8);
            &&& u32_at(m, p) == u32_at(t, arg)
            &&& same_bytes(
                copied(t1, u64_at(t1, at(arg, 8)), m, u64_at(m, at(p, 8)), size as nat),
                t,
            )
        }),
{
    let t1 = copied(t, arg, m, p, 8);
    lemma_mirrors_part(m, p, t, arg, 8, 0, 4);
    assert(at(p, 0) == p && at(arg, 0) == arg);
    lemma_mirrors_u32(m, p, t, arg);
    lemma_mirrors_back(t, t, arg, m, p, 8);
    lemma_same_u64(t1, t, at(arg, 8));
    lemma_mirrors_back(t1, t, u64_at(t, at(arg, 8)), m, vd, size as nat);
}

/// Whether the parameters of a message exchange at `vd` point to the message
/// at `vin` and to the answer at `vout`.
pub open spec fn message_points(m: Bytes, vd: u64, vin: u64, vout: u64) -> bool {
    u64_at(m, vd) == vin && u64_at(m, at(vd, 12)) == vout
}

/// Whether the blocks of a message exchange lie clear of each other: the
/// copy at `p`, the parameters at `vd`, the message at `vin` and the answer
/// at `vout`.
pub open spec fn message_clear(p: u64, vd: u64, vin: u64, n_in: usize, vout: u64, n_out: usize) -> bool {
    &&& p + 16 <= 0x1_0000_0000_0000_0000
    &&& clear(vd, 28, p, 16)
    &&& n_in > 0 ==> clear(vin, n_in as int, p, 16) && clear(vd, 28, vin, n_in as int)
    &&& n_out > 0 ==> clear(vout, n_out as int, p, 16) && clear(vd, 28, vout, n_out as int)
    &&& n_in > 0 && n_out > 0 ==> clear(vin, n_in as int, vout, n_out as int)
}

/// A copy that lies clear of the copy of an operation and of the parameters
/// of a message exchange leaves the pointers of both as they are.
pub proof fn lemma_message_points_kept(
    d: Bytes,
    dst: u64,
    s: Bytes,
    src: u64,
    len: nat,
    p: u64,
    vd: u64,
    vin: u64,
    vout: u64,
)
    requires
        len <= 0x1_0000_0000_0000_0000,
        ops_points(d, p, vd),
        message_points(d, vd, vin, vout),
        len > 0 ==> clear(at(p, 8), 8, dst, len as int) && clear(vd, 8, dst, len as int) && clear(
            at(vd, 12),
            8,
            dst,
            len as int,
        ),
    ensures
        ops_points(copied(d, dst, s, src, len), p, vd),
        message_points(copied(d, dst, s, src, len), vd, vin, vout),
{
    if len > 0 {
        lemma_kept_u64(d, dst, s, src, len, at(p, 8));
        lemma_kept_u64(d, dst, s, src, len, vd);
        lemma_kept_u64(d, dst, s, src, len, at(vd, 12));
    }
}

/// Once the alloc phase of a message exchange has written its three
/// pointers, the copy points to its parameters and the parameters to their
/// buffers.
pub proof fn lemma_message_pointers(bytes: Bytes, p: u64, vd: u64, vin: u64, vout: u64)
    requires
        p + 16 <= 0x1_0000_0000_0000_0000,
        clear(vd, 28, p, 16),
    ensures
        ({
            let b = with_u64(with_u64(with_u64(bytes, at(p, 8), vd), vd, vin), at(vd, 12), vout);
            ops_points(b, p, vd) && message_points(b, vd, vin, vout) && u64_at(
                with_u64(bytes, at(p, 8), vd),
                at(p, 8),
            ) == vd
        }),
{
    let b0 = with_u64(bytes, at(p, 8), vd);
    let b1 = with_u64(b0, vd, vin);
    let b2 = with_u64(b1, at(vd, 12), vout);
    lemma_with_u64(bytes, at(p, 8), vd);
    lemma_with_u64(b0, vd, vin);
    lemma_with_u64(b1, at(vd, 12), vout);
    lemma_put_kept_u64(b0, vd, vin, at(p, 8));
    lemma_put_kept_u64(b1, at(vd, 12), vout, at(p, 8));
    lemma_put_kept_u64(b1, at(vd, 12), vout, vd);
}

/// Whether the copy `m` of a message exchange mirrors the argument: action
/// and status, the three sizes, the message, and the whole buffer of the
/// answer.
pub open spec fn message_mirrors(
    m: Bytes,
    p: u64,
    vd: u64,
    vin: u64,
    vout: u64,
    t: Bytes,
    arg: u64,
) -> bool {
    let tp = u64_at(t, at(arg, 8));
    &&& ops_points(m, p, vd)
    &&& message_points(m, vd, vin, vout)
    &&& mirrors(m, p, t, arg, 8)
    &&& mirrors(m, at(vd, 8), t, at(tp, 8), 4)
    &&& mirrors(m, at(vd, 20), t, at(tp, 20), 8)
    &&& mirrors(m, vin, t, u64_at(t, tp), u32_at(t, at(tp, 8)) as int)
    &&& mirrors(m, vout, t, u64_at(t, at(tp, 12)), u32_at(t, at(tp, 20)) as int)
}

/// The sizes of a message exchange go out: the copy mirrors action, status
/// and the three sizes.
pub proof fn lemma_message_sizes(d: Bytes, p: u64, vd: u64, vin: u64, vout: u64, t: Bytes, arg: u64)
    requires
        p + 16 <= 0x1_0000_0000_0000_0000,
        clear(vd, 28, p, 16),
        ops_points(d, p, vd),
        message_points(d, vd, vin, vout),
    ensures
        ({
            let tp = u64_at(t, at(arg, 8));
            let d1 = copied(d, p, t, arg, 8);
            let m = copied(copied(d1, at(vd, 8), t, at(tp, 8), 4), at(vd, 20), t, at(tp, 20), 8);
            &&& ops_points(d1, p, vd)
            &&& ops_points(m, p, vd)
            &&& message_points(m, vd, vin, vout)
            &&& mirrors(m, p, t, arg, 8)
            &&& mirrors(m, at(vd, 8), t, at(tp, 8), 4)
            &&& mirrors(m, at(vd, 20), t, at(tp, 20), 8)
        }),
{
    let tp = u64_at(t, at(arg, 8));
    let d1 = copied(d, p, t, arg, 8);
    let m1 = copied(d1, at(vd, 8), t, at(tp, 8), 4);
    let m2 = copied(m1, at(vd, 20), t, at(tp, 20), 8);
    lemma_message_points_kept(d, p, t, arg, 8, p, vd, vin, vout);
    lemma_mirrors_copied(d, p, t, arg, 8);
    lemma_message_points_kept(d1, at(vd, 8), t, at(tp, 8), 4, p, vd, vin, vout);
    lemma_mirrors_kept(d1, at(vd, 8), t, at(tp, 8), 4, p, t, arg, 8);
    lemma_mirrors_copied(d1, at(vd, 8), t, at(tp, 8), 4);
    lemma_message_points_kept(m1, at(vd, 20), t, at(tp, 20), 8, p, vd, vin, vout);
    lemma_mirrors_kept(m1, at(vd, 20), t, at(tp, 20), 8, p, t, arg, 8);
    lemma_mirrors_kept(m1, at(vd, 20), t, at(tp, 20), 8, at(vd, 8), t, at(tp, 8), 4);
    lemma_mirrors_copied(m1, at(vd, 20), t, at(tp, 20), 8);
}

/// A buffer of a message exchange goes out: the copy keeps what it mirrors,
/// and mirrors the buffer as well.
pub proof fn lemma_message_buffer(
    d: Bytes,
    p: u64,
    vd: u64,
    vin: u64,
    vout: u64,
    t: Bytes,
    arg: u64,
    v: u64,
    data: u64,
    n: usize,
    other: u64,
    other_data: u64,
    other_len: usize,
)
    requires
        p + 16 <= 0x1_0000_0000_0000_0000,
        ops_points(d, p, vd),
        message_points(d, vd, vin, vout),
        mirrors(d, p, t, arg, 8),
        mirrors(d, at(vd, 8), t, at(u64_at(t, at(arg, 8)), 8), 4),
        mirrors(d, at(vd, 20), t, at(u64_at(t, at(arg, 8)), 20), 8),
        mirrors(d, other, t, other_data, other_len as int),
        clear(vd, 28, p, 16),
        n > 0 ==> clear(v, n as int, p, 16) && clear(vd, 28, v, n as int),
        n > 0 && other_len > 0 ==> clear(other, other_len as int, v, n as int),
    ensures
        ({
            let tp = u64_at(t, at(arg, 8));
            let m = copied(d, v, t, data, n as nat);
            &&& ops_points(m, p, vd)
            &&& message_points(m, vd, vin, vout)
            &&& mirrors(m, p, t, arg, 8)
            &&& mirrors(m, at(vd, 8), t, at(tp, 8), 4)
            &&& mirrors(m, at(vd, 20), t, at(tp, 20), 8)
            &&& mirrors(m, other, t, other_data, other_len as int)
            &&& mirrors(m, v, t, data, n as int)
        }),
{
    let tp = u64_at(t, at(arg, 8));
    lemma_message_points_kept(d, v, t, data, n as nat, p, vd, vin, vout);
    lemma_mirrors_kept(d, v, t, data, n as nat, p, t, arg, 8);
    lemma_mirrors_kept(d, v, t, data, n as nat, at(vd, 8), t, at(tp, 8), 4);
    lemma_mirrors_kept(d, v, t, data, n as nat, at(vd, 20), t, at(tp, 20), 8);
    lemma_mirrors_kept(d, v, t, data, n as nat, other, t, other_data, other_len as int);
    lemma_mirrors_copied(d, v, t, data, n as nat);
}

/// The copy of a message exchange after the first half mirrors the argument.
pub proof fn lemma_message_mirrored(bytes: Bytes, p: u64, vd: u64, vin: u64, vout: u64, t: Bytes, arg: u64)
    requires
        message_clear(
            p,
            vd,
            vin,
            u32_at(t, at(u64_at(t, at(arg, 8)), 8)) as usize,
            vout,
            u32_at(t, at(u64_at(t, at(arg, 8)), 20)) as usize,
        ),
    ensures
        ({
            let b = with_u64(with_u64(with_u64(bytes, at(p, 8), vd), vd, vin), at(vd, 12), vout);
            let d1 = copied(b, p, t, arg, 8);
            message_mirrors(
                prelim_drm_i915_pxp_ops::message_copied(
                    d1,
                    u64_at(d1, at(p, 8)),
                    t,
                    u64_at(t, at(arg, 8)),
                    Direction::t2u,
                ),
                p,
                vd,
                vin,
                vout,
                t,
                arg,
            )
        }),
{
    let tp = u64_at(t, at(arg, 8));
    let n_in = u32_at(t, at(tp, 8)) as usize;
    let n_out = u32_at(t, at(tp, 20)) as usize;
    let b = with_u64(with_u64(with_u64(bytes, at(p, 8), vd), vd, vin), at(vd, 12), vout);
    lemma_message_pointers(bytes, p, vd, vin, vout);
    let d1 = copied(b, p, t, arg, 8);
    let m2 = copied(copied(d1, at(vd, 8), t, at(tp, 8), 4), at(vd, 20), t, at(tp, 20), 8);
    lemma_message_sizes(b, p, vd, vin, vout, t, arg);
    crate::space::lemma_mirrors_none(m2, vout, t, u64_at(t, at(tp, 12)));
    let m3 = copied(m2, vin, t, u64_at(t, tp), n_in as nat);
    lemma_message_buffer(
        m2,
        p,
        vd,
        vin,
        vout,
        t,
        arg,
        vin,
        u64_at(t, tp),
        n_in,
        vout,
        u64_at(t, at(tp, 12)),
        0,
    );
    let m4 = copied(m3, vout, t, u64_at(t, at(tp, 12)), n_out as nat);
    lemma_message_buffer(
        m3,
        p,
        vd,
        vin,
        vout,
        t,
        arg,
        vout,
        u64_at(t, at(tp, 12)),
        n_out,
        vin,
        u64_at(t, tp),
        n_in,
    );
    assert(prelim_drm_i915_pxp_ops::message_copied(d1, vd, t, tp, Direction::t2u) == m4) by {
        reveal(prelim_drm_i915_pxp_ops::message_copied);
    }
}

/// The copy back of a message exchange from a copy that mirrors the argument
/// leaves the trusted memory as it was, where the answer is no longer than
/// its buffer.
pub proof fn lemma_message_back(t: Bytes, arg: u64, m: Bytes, p: u64, vd: u64, vin: u64, vout: u64)
    requires
        message_mirrors(m, p, vd, vin, vout, t, arg),
        u32_at(t, at(u64_at(t, at(arg, 8)), 24)) <= u32_at(t, at(u64_at(t, at(arg, 8)), 20)),
    ensures
        ({
            let t1 = copied(t, arg, m, p, 8);
            &&& u32_at(m, p) == u32_at(t, arg)
            &&& same_bytes(
                prelim_drm_i915_pxp_ops::message_copied(
                    t1,
                    u64_at(t1, at(arg, 8)),
                    m,
                    u64_at(m, at(p, 8)),
                    Direction::u2t,
                ),
                t,
            )
        }),
{
    let tp = u64_at(t, at(arg, 8));
    let n_in = u32_at(t, at(tp, 8));
    let ret = u32_at(t, at(tp, 24));
    let t1 = copied(t, arg, m, p, 8);
    lemma_mirrors_part(m, p, t, arg, 8, 0, 4);
    assert(at(p, 0) == p && at(arg, 0) == arg);
    lemma_mirrors_u32(m, p, t, arg);
    lemma_mirrors_back(t, t, arg, m, p, 8);
    lemma_same_u64(t1, t, at(arg, 8));
    let t2 = copied(t1, at(tp, 8), m, at(vd, 8), 4);
    lemma_mirrors_back(t1, t, at(tp, 8), m, at(vd, 8), 4);
    let t3 = copied(t2, at(tp, 20), m, at(vd, 20), 8);
    lemma_mirrors_back(t2, t, at(tp, 20), m, at(vd, 20), 8);
    lemma_mirrors_u32(m, at(vd, 8), t, at(tp, 8));
    lemma_mirrors_part(m, at(vd, 20), t, at(tp, 20), 8, 4, 4);
    assert(at(at(vd, 20), 4) == at(vd, 24) && at(at(tp, 20), 4) == at(tp, 24));
    lemma_mirrors_u32(m, at(vd, 24), t, at(tp, 24));
    lemma_same_u64(t3, t, tp);
    let t4 = if n_in > 0 {
        copied(t3, u64_at(t, tp), m, vin, n_in as nat)
    } else {
        t3
    };
    if n_in > 0 {
        lemma_mirrors_back(t3, t, u64_at(t, tp), m, vin, n_in as nat);
    }
    lemma_same_u64(t4, t, at(tp, 12));
    let t5 = if ret > 0 {
        copied(t4, u64_at(t, at(tp, 12)), m, vout, ret as nat)
    } else {
        t4
    };
    if ret > 0 {
        lemma_mirrors_part(
            m,
            vout,
            t,
            u64_at(t, at(tp, 12)),
            u32_at(t, at(tp, 20)) as int,
            0,
            ret as int,
        );
        assert(at(vout, 0) == vout && at(u64_at(t, at(tp, 12)), 0) == u64_at(t, at(tp, 12)));
        lemma_mirrors_back(t4, t, u64_at(t, at(tp, 12)), m, vout, ret as nat);
    }
    assert(prelim_drm_i915_pxp_ops::message_copied(t1, tp, m, vd, Direction::u2t) == t5) by {
        reveal(prelim_drm_i915_pxp_ops::message_copied);
    }
}

/// Whether an answer of the argument at `arg` is no longer than its buffer,
/// for a message exchange.
pub open spec fn answer_fits(t: Bytes, arg: u64) -> bool {
    u32_at(t, arg) == PXP_ACTION_TEE_IO_MESSAGE ==> u32_at(t, at(u64_at(t, at(arg, 8)), 24))
        <= u32_at(t, at(u64_at(t, at(arg, 8)), 20))
}

/// What the copy of a message exchange holds after the first half: the copy
/// names the action and points to its parameters, which point to their
/// buffers and name their sizes.
pub proof fn lemma_message_built(bytes: Bytes, p: u64, vd: u64, vin: u64, vout: u64, t: Bytes, arg: u64)
    requires
        u32_at(t, arg) == PXP_ACTION_TEE_IO_MESSAGE,
        message_clear(
            p,
            vd,
            vin,
            u32_at(t, at(u64_at(t, at(arg, 8)), 8)) as usize,
            vout,
            u32_at(t, at(u64_at(t, at(arg, 8)), 20)) as usize,
        ),
    ensures
        ({
            let tp = u64_at(t, at(arg, 8));
            let m = prelim_drm_i915_pxp_ops::copy_result(
                with_u64(with_u64(with_u64(bytes, at(p, 8), vd), vd, vin), at(vd, 12), vout),
                p,
                t,
                arg,
                Direction::t2u,
            );
            &&& u32_at(m, p) == PXP_ACTION_TEE_IO_MESSAGE
            &&& u64_at(m, at(p, 8)) == vd
            &&& u64_at(m, vd) == vin
            &&& u64_at(m, at(vd, 12)) == vout
            &&& u32_at(m, at(vd, 8)) == u32_at(t, at(tp, 8))
            &&& u32_at(m, at(vd, 20)) == u32_at(t, at(tp, 20))
        }),
{
    let tp = u64_at(t, at(arg, 8));
    lemma_message_mirrored(bytes, p, vd, vin, vout, t, arg);
    let b = with_u64(with_u64(with_u64(bytes, at(p, 8), vd), vd, vin), at(vd, 12), vout);
    let d1 = copied(b, p, t, arg, 8);
    lemma_message_pointers(bytes, p, vd, vin, vout);
    lemma_message_sizes(b, p, vd, vin, vout, t, arg);
    let m = prelim_drm_i915_pxp_ops::message_copied(d1, vd, t, tp, Direction::t2u);
    assert(prelim_drm_i915_pxp_ops::copy_result(b, p, t, arg, Direction::t2u) == m) by {
        reveal(prelim_drm_i915_pxp_ops::copy_result);
    }
    lemma_mirrors_part(m, p, t, arg, 8, 0, 4);
    assert(at(p, 0) == p && at(arg, 0) == arg);
    lemma_mirrors_u32(m, p, t, arg);
    lemma_mirrors_u32(m, at(vd, 8), t, at(tp, 8));
    lemma_mirrors_part(m, at(vd, 20), t, at(tp, 20), 8, 0, 4);
    assert(at(at(vd, 20), 0) == at(vd, 20) && at(at(tp, 20), 0) == at(tp, 20));
    lemma_mirrors_u32(m, at(vd, 20), t, at(tp, 20));
}

/// What the copy of a message exchange holds after the first half, and what
/// its copy back does: the copy names the action, points to its parameters,
/// which point to their buffers and name their sizes; and the copy back
/// leaves the trusted memory as it was.
pub proof fn lemma_message_summary(bytes: Bytes, p: u64, vd: u64, vin: u64, vout: u64, t: Bytes, arg: u64)
    requires
        u32_at(t, arg) == PXP_ACTION_TEE_IO_MESSAGE,
        answer_fits(t, arg),
        message_clear(
            p,
            vd,
            vin,
            u32_at(t, at(u64_at(t, at(arg, 8)), 8)) as usize,
            vout,
            u32_at(t, at(u64_at(t, at(arg, 8)), 20)) as usize,
        ),
    ensures
        ({
            let tp = u64_at(t, at(arg, 8));
            let m = prelim_drm_i915_pxp_ops::copy_result(
                with_u64(with_u64(with_u64(bytes, at(p, 8), vd), vd, vin), at(vd, 12), vout),
                p,
                t,
                arg,
                Direction::t2u,
            );
            &&& u32_at(m, p) == PXP_ACTION_TEE_IO_MESSAGE
            &&& u64_at(m, at(p, 8)) == vd
            &&& u64_at(m, vd) == vin
            &&& u64_at(m, at(vd, 12)) == vout
            &&& u32_at(m, at(vd, 8)) == u32_at(t, at(tp, 8))
            &&& u32_at(m, at(vd, 20)) == u32_at(t, at(tp, 20))
            &&& same_bytes(
                prelim_drm_i915_pxp_ops::copy_result(t, arg, m, p, Direction::u2t),
                t,
            )
        }),
{
    let tp = u64_at(t, at(arg, 8));
    lemma_message_built(bytes, p, vd, vin, vout, t, arg);
    lemma_message_mirrored(bytes, p, vd, vin, vout, t, arg);
    let b = with_u64(with_u64(with_u64(bytes, at(p, 8), vd), vd, vin), at(vd, 12), vout);
    let d1 = copied(b, p, t, arg, 8);
    lemma_message_pointers(bytes, p, vd, vin, vout);
    lemma_message_sizes(b, p, vd, vin, vout, t, arg);
    let m = prelim_drm_i915_pxp_ops::message_copied(d1, vd, t, tp, Direction::t2u);
    assert(prelim_drm_i915_pxp_ops::copy_result(b, p, t, arg, Direction::t2u) == m) by {
        reveal(prelim_drm_i915_pxp_ops::copy_result);
    }
    lemma_message_back(t, arg, m, p, vd, vin, vout);
    let t1 = copied(t, arg, m, p, 8);
    assert(prelim_drm_i915_pxp_ops::copy_result(t, arg, m, p, Direction::u2t)
        == prelim_drm_i915_pxp_ops::message_copied(
        t1,
        u64_at(t1, at(arg, 8)),
        m,
        u64_at(m, at(p, 8)),
        Direction::u2t,
    )) by {
        reveal(prelim_drm_i915_pxp_ops::copy_result);
    }
}

/// A message exchange comes back and gives back.
pub proof fn lemma_pxp_message_comes_back(
    before: Seq<Arena>,
    h: ShadowView,
    t: Bytes,
    arg: u64,
    root: Holding,
)
    requires
        holding(before, h.arenas, set![root]),
        root.size == 16,
        u32_at(t, arg) == PXP_ACTION_TEE_IO_MESSAGE,
        answer_fits(t, arg),
        prelim_drm_i915_pxp_ops::allocated(h, root.ptr, t, arg).0 is Ok,
    ensures
        ({
            let (r1, h1) = prelim_drm_i915_pxp_ops::allocated(h, root.ptr, t, arg);
            let m = prelim_drm_i915_pxp_ops::copy_result(
                h1.bytes,
                root.ptr,
                t,
                arg,
                Direction::t2u,
            );
            let (r, after) = prelim_drm_i915_pxp_ops::freed(
                ShadowView { arenas: h1.arenas, bytes: m },
                root.ptr,
            );
            &&& same_bytes(
                prelim_drm_i915_pxp_ops::copy_result(t, arg, m, root.ptr, Direction::u2t),
                t,
            )
            &&& r is Ok
            &&& after.bytes == m
            &&& holding(before, after.arenas, set![root])
        }),
{
    reveal(prelim_drm_i915_pxp_ops::allocated);
    reveal(prelim_drm_i915_pxp_ops::freed);
    let p = root.ptr;
    let tp = u64_at(t, at(arg, 8));
    let n_in = u32_at(t, at(tp, 8)) as usize;
    let n_out = u32_at(t, at(tp, 20)) as usize;
    let (r1, a1) = allocation(h.arenas, 28);
    let vd = r1->Ok_0;
    lemma_with_u64(h.bytes, at(p, 8), vd);
    let (r2, a2) = allocation(a1, n_in);
    let (r3, a3) = allocation(a2, n_out);
    let (vin, vout) = (r2->Ok_0, r3->Ok_0);
    lemma_three_buffers(before, h.arenas, root, 28, n_in, n_out);
    assert(message_clear(p, vd, vin, n_in, vout, n_out));
    lemma_message_summary(h.bytes, p, vd, vin, vout, t, arg);
    let b = with_u64(with_u64(with_u64(h.bytes, at(p, 8), vd), vd, vin), at(vd, 12), vout);
    assert(prelim_drm_i915_pxp_ops::allocated(h, p, t, arg).1 == (ShadowView {
        arenas: a3,
        bytes: b,
    }));
}

/// A message exchange gives back, whatever the length of its answer.
pub proof fn lemma_pxp_message_gives_back(
    before: Seq<Arena>,
    h: ShadowView,
    t: Bytes,
    arg: u64,
    root: Holding,
)
    requires
        holding(before, h.arenas, set![root]),
        root.size == 16,
        u32_at(t, arg) == PXP_ACTION_TEE_IO_MESSAGE,
        prelim_drm_i915_pxp_ops::allocated(h, root.ptr, t, arg).0 is Ok,
    ensures
        ({
            let (r1, h1) = prelim_drm_i915_pxp_ops::allocated(h, root.ptr, t, arg);
            let m = prelim_drm_i915_pxp_ops::copy_result(
                h1.bytes,
                root.ptr,
                t,
                arg,
                Direction::t2u,
            );
            let (r, after) = prelim_drm_i915_pxp_ops::freed(
                ShadowView { arenas: h1.arenas, bytes: m },
                root.ptr,
            );
            &&& r is Ok
            &&& after.bytes == m
            &&& holding(before, after.arenas, set![root])
        }),
{
    reveal(prelim_drm_i915_pxp_ops::allocated);
    reveal(prelim_drm_i915_pxp_ops::freed);
    let p = root.ptr;
    let tp = u64_at(t, at(arg, 8));
    let n_in = u32_at(t, at(tp, 8)) as usize;
    let n_out = u32_at(t, at(tp, 20)) as usize;
    let (r1, a1) = allocation(h.arenas, 28);
    let vd = r1->Ok_0;
    lemma_with_u64(h.bytes, at(p, 8), vd);
    let (r2, a2) = allocation(a1, n_in);
    let (r3, a3) = allocation(a2, n_out);
    let (vin, vout) = (r2->Ok_0, r3->Ok_0);
    lemma_three_buffers(before, h.arenas, root, 28, n_in, n_out);
    assert(message_clear(p, vd, vin, n_in, vout, n_out));
    lemma_message_built(h.bytes, p, vd, vin, vout, t, arg);
    let b = with_u64(with_u64(with_u64(h.bytes, at(p, 8), vd), vd, vin), at(vd, 12), vout);
    assert(prelim_drm_i915_pxp_ops::allocated(h, p, t, arg).1 == (ShadowView {
        arenas: a3,
        bytes: b,
    }));
}

/// A protected-content operation gives back, whatever the length of the
/// answer of a message exchange.
pub proof fn lemma_pxp_gives_back(before: Seq<Arena>, h: ShadowView, t: Bytes, arg: u64, root: Holding)
    requires
        holding(before, h.arenas, set![root]),
        root.size == 16,
    ensures
        gives_back(Deep::PxpOps, before, h, t, arg, root),
{
    reveal(Deep::allocated);
    reveal(Deep::copy_result);
    reveal(Deep::freed);
    if prelim_drm_i915_pxp_ops::allocated(h, root.ptr, t, arg).0 is Ok {
        if u32_at(t, arg) == PXP_ACTION_TEE_IO_MESSAGE {
            lemma_pxp_message_gives_back(before, h, t, arg, root);
        } else {
            lemma_pxp_plain_comes_back(before, h, t, arg, root);
        }
    }
}

/// An operation with plain parameters comes back and gives back.
pub proof fn lemma_pxp_plain_comes_back(
    before: Seq<Arena>,
    h: ShadowView,
    t: Bytes,
    arg: u64,
    root: Holding,
)
    requires
        holding(before, h.arenas, set![root]),
        root.size == 16,
        u32_at(t, arg) != PXP_ACTION_TEE_IO_MESSAGE,
        prelim_drm_i915_pxp_ops::allocated(h, root.ptr, t, arg).0 is Ok,
    ensures
        ({
            let (r1, h1) = prelim_drm_i915_pxp_ops::allocated(h, root.ptr, t, arg);
            let m = prelim_drm_i915_pxp_ops::copy_result(
                h1.bytes,
                root.ptr,
                t,
                arg,
                Direction::t2u,
            );
            let (r, after) = prelim_drm_i915_pxp_ops::freed(
                ShadowView { arenas: h1.arenas, bytes: m },
                root.ptr,
            );
            &&& same_bytes(
                prelim_drm_i915_pxp_ops::copy_result(t, arg, m, root.ptr, Direction::u2t),
                t,
            )
            &&& r is Ok
            &&& after.bytes == m
            &&& holding(before, after.arenas, set![root])
        }),
{
    reveal(prelim_drm_i915_pxp_ops::allocated);
    reveal(prelim_drm_i915_pxp_ops::copy_result);
    reveal(prelim_drm_i915_pxp_ops::freed);
    let p = root.ptr;
    let tp = u64_at(t, at(arg, 8));
    let size = prelim_drm_i915_pxp_ops::size_of_params(u32_at(t, arg))->Ok_0;
    let vd = allocation(h.arenas, size).0->Ok_0;
    lemma_buffer_held(before, h.arenas, root, size);
    lemma_plain_mirrored(h.bytes, p, vd, t, arg, size);
    let d1 = copied(with_u64(h.bytes, at(p, 8), vd), p, t, arg, 8);
    let m = copied(d1, u64_at(d1, at(p, 8)), t, tp, size as nat);
    lemma_plain_back(t, arg, m, p, vd, size);
}

/// A protected-content operation comes back and gives back.
pub proof fn lemma_pxp_comes_back(before: Seq<Arena>, h: ShadowView, t: Bytes, arg: u64, root: Holding)
    requires
        holding(before, h.arenas, set![root]),
        root.size == 16,
        answer_fits(t, arg),
    ensures
        comes_back(Deep::PxpOps, h, t, arg, root.ptr),
        gives_back(Deep::PxpOps, before, h, t, arg, root),
{
    reveal(Deep::allocated);
    reveal(Deep::copy_result);
    reveal(Deep::freed);
    if prelim_drm_i915_pxp_ops::allocated(h, root.ptr, t, arg).0 is Ok {
        if u32_at(t, arg) == PXP_ACTION_TEE_IO_MESSAGE {
            lemma_pxp_message_comes_back(before, h, t, arg, root);
        } else {
            lemma_pxp_plain_comes_back(before, h, t, arg, root);
        }
    }
}

/// A protected-content operation whose driver leaves the copy of the
/// argument alone leaves the trusted memory as it was, and gives back all
/// that it allocated, where the answer of a message exchange is no longer
/// than its buffer.
pub proof fn lemma_pxp_loopback(h: ShadowView, t: Bytes, arg: u64)
    requires
        sound(h.arenas),
        exec2_result(Deep::PxpOps, h, t, arg).0 is Ok,
        answer_fits(t, arg),
    ensures
        ({
            let (ptr, shadow) = exec2_result(Deep::PxpOps, h, t, arg);
            let (done, back, after) = exec2_finished(Deep::PxpOps, t, arg, shadow, ptr->Ok_0);
            &&& done is Ok
            &&& same_bytes(back, t)
            &&& sound(after.arenas)
            &&& same_free(after.arenas, h.arenas)
            &&& same_blocks(after.arenas, h.arenas)
        }),
{
    let kind = Deep::PxpOps;
    lemma_root_held(kind, h);
    lemma_pxp_comes_back(h.arenas, begun(kind, h), t, arg, grant(h.arenas, kind.size()));
    lemma_exec2_comes_back(kind, h, t, arg);
    lemma_exec2_gives_back(kind, h, t, arg);
}

} // verus!
