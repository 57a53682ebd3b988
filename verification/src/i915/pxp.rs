//! Protected-content operations.
//!
//! The argument names an action and points to the parameters of that action,
//! whose layout depends on it. The parameters of a message exchange point to
//! two further buffers, the message to the firmware and its answer.

use vstd::prelude::*;
use crate::error::Error;
use crate::i915::Direction;
use crate::shadow::{
    Shadow, ShadowView, alloc_into, allocated_into, copy_payload, field, free_from, freed_from,
    payload_copied,
};
use crate::space::{Bytes, Memory, at, copied, copy, read_u32, read_u64, u32_at, u64_at};

verus! {

/// The argument of a protected-content operation: `action` and `status`, four
/// bytes each, and the address of the parameters. The structure is packed.
#[allow(non_camel_case_types)]
pub struct prelim_drm_i915_pxp_ops {}

/// Offset of the address of the parameters.
pub const PXP_OPS_PARAMS: u64 = 8;

/// Size of the scalar fields `action` and `status`.
pub const PXP_OPS_SCALARS: usize = 8;

/// The action that sets the status of a session.
pub const PXP_ACTION_SET_SESSION_STATUS: u32 = 0;

/// The action that exchanges a message with the firmware.
pub const PXP_ACTION_TEE_IO_MESSAGE: u32 = 1;

/// The action that queries a tag.
pub const PXP_ACTION_QUERY_TAG: u32 = 2;

/// Size of the parameters of a session status.
pub const PXP_SET_SESSION_STATUS_SIZE: usize = 16;

/// Size of the parameters of a message exchange.
pub const PXP_TEE_IO_MESSAGE_SIZE: usize = 28;

/// Size of the parameters of a tag query.
pub const PXP_QUERY_TAG_SIZE: usize = 8;

/// Offset of the address of the message in the parameters of an exchange.
pub const TEE_MSG_IN: u64 = 0;

/// Offset of the size of the message.
pub const TEE_MSG_IN_SIZE: u64 = 8;

/// Offset of the address of the answer.
pub const TEE_MSG_OUT: u64 = 12;

/// Offset of the size of the buffer for the answer.
pub const TEE_MSG_OUT_BUF_SIZE: u64 = 20;

/// Offset of the size of the answer.
pub const TEE_MSG_OUT_RET_SIZE: u64 = 24;

impl prelim_drm_i915_pxp_ops {
    /// Size of the argument itself.
    pub const SIZE: usize = 16;

    /// The size of the parameters of `action`, for an action that has any.
    pub open spec fn size_of_params(action: u32) -> Result<usize, Error> {
        if action == PXP_ACTION_SET_SESSION_STATUS {
            Ok(PXP_SET_SESSION_STATUS_SIZE)
        } else if action == PXP_ACTION_TEE_IO_MESSAGE {
            Ok(PXP_TEE_IO_MESSAGE_SIZE)
        } else if action == PXP_ACTION_QUERY_TAG {
            Ok(PXP_QUERY_TAG_SIZE)
        } else {
            Err(Error::IllegalAction)
        }
    }

    /// The size of the parameters of `action`.
    pub fn sizeof(action: u32) -> (r: Result<usize, Error>)
        ensures
            r == Self::size_of_params(action),
    {
        match action {
            0 => Ok(PXP_SET_SESSION_STATUS_SIZE),
            1 => Ok(PXP_TEE_IO_MESSAGE_SIZE),
            2 => Ok(PXP_QUERY_TAG_SIZE),
            _ => Err(Error::IllegalAction),
        }
    }

    /// What the alloc phase does for the argument at `src` in the trusted
    /// memory `t` and its copy at `dst`: the copy gets parameters of the size
    /// of the action, and for a message exchange the parameters get a buffer
    /// for the message and one for the answer, of the sizes that the trusted
    /// parameters give. The first request that fails ends the phase.
    #[verifier::opaque]
    pub open spec fn allocated(h: ShadowView, dst: u64, t: Bytes, src: u64) -> (
        Result<(), Error>,
        ShadowView,
    ) {
        let action = u32_at(t, src);
        match Self::size_of_params(action) {
            Err(e) => (Err(e), h),
            Ok(size) => {
                let (r1, h1) = allocated_into(h, at(dst, 8), size);
                if r1 is Err || action != PXP_ACTION_TEE_IO_MESSAGE {
                    (r1, h1)
                } else {
                    let s = u64_at(t, at(src, 8));
                    let d = u64_at(h1.bytes, at(dst, 8));
                    let (r2, h2) = allocated_into(h1, d, u32_at(t, at(s, 8)) as usize);
                    if r2 is Err {
                        (r2, h2)
                    } else {
                        allocated_into(h2, at(d, 12), u32_at(t, at(s, 20)) as usize)
                    }
                }
            },
        }
    }

    /// Allocates the parameters of the copy at `dst` and, for a message
    /// exchange, the two buffers of the parameters.
    pub fn allocate<T: Memory, U: Memory>(host: &mut Shadow<U>, dst: u64, trusted: &T, src: u64) -> (r:
        Result<(), Error>)
        requires
            old(host).wf(),
        ensures
            final(host).wf(),
            (r, final(host)@) == Self::allocated(old(host)@, dst, trusted.bytes(), src),
    {
        reveal(prelim_drm_i915_pxp_ops::allocated);
        let action: u32 = read_u32(trusted, src);
        let size: usize = Self::sizeof(action)?;
        alloc_into(host, field(dst, PXP_OPS_PARAMS), size)?;
        if action == PXP_ACTION_TEE_IO_MESSAGE {
            let s: u64 = read_u64(trusted, field(src, PXP_OPS_PARAMS));
            let d: u64 = read_u64(&host.memory, field(dst, PXP_OPS_PARAMS));
            let msg_in_size: u32 = read_u32(trusted, field(s, TEE_MSG_IN_SIZE));
            alloc_into(host, field(d, TEE_MSG_IN), msg_in_size as usize)?;
            let msg_out_buf_size: u32 = read_u32(trusted, field(s, TEE_MSG_OUT_BUF_SIZE));
            alloc_into(host, field(d, TEE_MSG_OUT), msg_out_buf_size as usize)?;
        }
        Ok(())
    }

    /// What copying the parameters of a message exchange does: the three sizes
    /// are copied, then the message, then the answer: the whole buffer on the
    /// way out, as much as the answer's size says on the way back.
    #[verifier::opaque]
    pub open spec fn message_copied(d: Bytes, dp: u64, s: Bytes, sp: u64, direction: Direction) -> Bytes {
        let d1 = copied(d, at(dp, 8), s, at(sp, 8), 4);
        let d2 = copied(d1, at(dp, 20), s, at(sp, 20), 8);
        let msg_in_size = u32_at(s, at(sp, 8));
        let d3 = if msg_in_size > 0 {
            payload_copied(d2, dp, s, sp, msg_in_size as usize)
        } else {
            d2
        };
        let out_size = if direction == Direction::t2u {
            u32_at(s, at(sp, 20))
        } else {
            u32_at(s, at(sp, 24))
        };
        if out_size > 0 {
            payload_copied(d3, at(dp, 12), s, at(sp, 12), out_size as usize)
        } else {
            d3
        }
    }

    /// What a copy from the structure at `src` in `s` to the one at `dst` in
    /// `d` does: `action` and `status` are copied, then the parameters as the
    /// action of the source lays them out. An action without layout leaves the
    /// parameters alone.
    #[verifier::opaque]
    pub open spec fn copy_result(d: Bytes, dst: u64, s: Bytes, src: u64, direction: Direction) -> Bytes {
        let d1 = copied(d, dst, s, src, PXP_OPS_SCALARS as nat);
        let action = u32_at(s, src);
        if action == PXP_ACTION_SET_SESSION_STATUS {
            payload_copied(d1, at(dst, 8), s, at(src, 8), PXP_SET_SESSION_STATUS_SIZE)
        } else if action == PXP_ACTION_QUERY_TAG {
            payload_copied(d1, at(dst, 8), s, at(src, 8), PXP_QUERY_TAG_SIZE)
        } else if action == PXP_ACTION_TEE_IO_MESSAGE {
            Self::message_copied(d1, u64_at(d1, at(dst, 8)), s, u64_at(s, at(src, 8)), direction)
        } else {
            d1
        }
    }

    /// Copies the structure at `src` to the one at `dst`, with the parameters
    /// and buffers behind it.
    pub fn copy<D: Memory, S: Memory>(
        dst_mem: &mut D,
        dst: u64,
        src_mem: &S,
        src: u64,
        direction: Direction,
    ) -> (r: Result<(), Error>)
        ensures
            r == Ok::<(), Error>(()),
            final(dst_mem).bytes() == Self::copy_result(
                old(dst_mem).bytes(),
                dst,
                src_mem.bytes(),
                src,
                direction,
            ),
    {
        reveal(prelim_drm_i915_pxp_ops::copy_result);
        reveal(prelim_drm_i915_pxp_ops::message_copied);
        copy(dst_mem, dst, src_mem, src, PXP_OPS_SCALARS);
        let action: u32 = read_u32(src_mem, src);
        match action {
            0 => {
                copy_payload(
                    dst_mem,
                    field(dst, PXP_OPS_PARAMS),
                    src_mem,
                    field(src, PXP_OPS_PARAMS),
                    PXP_SET_SESSION_STATUS_SIZE,
                );
            },
            2 => {
                copy_payload(
                    dst_mem,
                    field(dst, PXP_OPS_PARAMS),
                    src_mem,
                    field(src, PXP_OPS_PARAMS),
                    PXP_QUERY_TAG_SIZE,
                );
            },
            1 => {
                let s: u64 = read_u64(src_mem, field(src, PXP_OPS_PARAMS));
                let d: u64 = read_u64(dst_mem, field(dst, PXP_OPS_PARAMS));
                copy(dst_mem, field(d, TEE_MSG_IN_SIZE), src_mem, field(s, TEE_MSG_IN_SIZE), 4);
                copy(
                    dst_mem,
                    field(d, TEE_MSG_OUT_BUF_SIZE),
                    src_mem,
                    field(s, TEE_MSG_OUT_BUF_SIZE),
                    8,
                );
                let msg_in_size: u32 = read_u32(src_mem, field(s, TEE_MSG_IN_SIZE));
                if msg_in_size > 0 {
                    copy_payload(
                        dst_mem,
                        field(d, TEE_MSG_IN),
                        src_mem,
                        field(s, TEE_MSG_IN),
                        msg_in_size as usize,
                    );
                }
                let out_size: u32 = if direction == Direction::t2u {
                    read_u32(src_mem, field(s, TEE_MSG_OUT_BUF_SIZE))
                } else {
                    read_u32(src_mem, field(s, TEE_MSG_OUT_RET_SIZE))
                };
                if out_size > 0 {
                    copy_payload(
                        dst_mem,
                        field(d, TEE_MSG_OUT),
                        src_mem,
                        field(s, TEE_MSG_OUT),
                        out_size as usize,
                    );
                }
            },
            _ => {},
        }
        Ok(())
    }

    /// What the free phase does for the copy at `addr`: for a message exchange
    /// the two buffers of the parameters are given back, with the sizes that
    /// the parameters hold; then the parameters, with the size of the action.
    /// An action without layout is an error, and the parameters stay.
    #[verifier::opaque]
    pub open spec fn freed(h: ShadowView, addr: u64) -> (Result<(), Error>, ShadowView) {
        let action = u32_at(h.bytes, addr);
        let param = u64_at(h.bytes, at(addr, 8));
        let h2 = if action == PXP_ACTION_TEE_IO_MESSAGE {
            freed_from(
                freed_from(h, param, u32_at(h.bytes, at(param, 8)) as usize),
                at(param, 12),
                u32_at(h.bytes, at(param, 20)) as usize,
            )
        } else {
            h
        };
        match Self::size_of_params(action) {
            Ok(size) => (Ok(()), freed_from(h2, at(addr, 8), size)),
            Err(e) => (Err(e), h2),
        }
    }

    /// Gives back what the alloc phase allocated for the copy at `addr`.
    pub fn free<U: Memory>(host: &mut Shadow<U>, addr: u64) -> (r: Result<(), Error>)
        requires
            old(host).wf(),
        ensures
            final(host).wf(),
            (r, final(host)@) == Self::freed(old(host)@, addr),
    {
        reveal(prelim_drm_i915_pxp_ops::freed);
        let action: u32 = read_u32(&host.memory, addr);
        if action == PXP_ACTION_TEE_IO_MESSAGE {
            let param: u64 = read_u64(&host.memory, field(addr, PXP_OPS_PARAMS));
            let msg_in_size: u32 = read_u32(&host.memory, field(param, TEE_MSG_IN_SIZE));
            let msg_out_buf_size: u32 = read_u32(&host.memory, field(param, TEE_MSG_OUT_BUF_SIZE));
            free_from(host, field(param, TEE_MSG_IN), msg_in_size as usize);
            free_from(host, field(param, TEE_MSG_OUT), msg_out_buf_size as usize);
        }
        let size: usize = Self::sizeof(action)?;
        free_from(host, field(addr, PXP_OPS_PARAMS), size);
        Ok(())
    }
}

} // verus!
