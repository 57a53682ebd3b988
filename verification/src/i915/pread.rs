//! Reading from and writing to a buffer object.
//!
//! Both arguments name an object, an offset and a size, and point to a buffer
//! of that size. A read fills the buffer, so it travels back only; a write
//! empties it, so it travels out only.

use vstd::prelude::*;
use crate::error::Error;
use crate::i915::Direction;
use crate::shadow::{
    Shadow, ShadowView, alloc_into, allocated_into, copy_payload, field, free_from, freed_from,
    payload_copied, size_of_u64, u64_size,
};
use crate::space::{Bytes, Memory, at, copied, copy, read_u64, u64_at};

verus! {

/// Offset of the size of the buffer, in both arguments.
pub const TRANSFER_SIZE: u64 = 16;

/// Offset of the address of the buffer, in both arguments.
pub const TRANSFER_DATA_PTR: u64 = 24;

/// Size of the scalar fields `handle`, `pad`, `offset`, `size`.
pub const TRANSFER_SCALARS: usize = 24;

/// What the alloc phase does for the argument at `src` and its copy at `dst`:
/// the copy gets a buffer as long as the source says.
#[verifier::opaque]
pub open spec fn transfer_allocated(h: ShadowView, dst: u64, t: Bytes, src: u64) -> (
    Result<(), Error>,
    ShadowView,
) {
    allocated_into(h, at(dst, 24), size_of_u64(u64_at(t, at(src, 16))))
}

/// What a copy does: the scalar fields are copied, and the buffer where
/// `with_data` says so and the source has a size.
#[verifier::opaque]
pub open spec fn transfer_copied(d: Bytes, dst: u64, s: Bytes, src: u64, with_data: bool) -> Bytes {
    let d1 = copied(d, dst, s, src, TRANSFER_SCALARS as nat);
    if with_data && u64_at(s, at(src, 16)) > 0 {
        payload_copied(d1, at(dst, 24), s, at(src, 24), size_of_u64(u64_at(s, at(src, 16))))
    } else {
        d1
    }
}

/// The untrusted side after the buffer of the copy at `addr` has been given
/// back, with the size that the copy holds.
#[verifier::opaque]
pub open spec fn transfer_freed(h: ShadowView, addr: u64) -> ShadowView {
    freed_from(h, at(addr, 24), size_of_u64(u64_at(h.bytes, at(addr, 16))))
}

/// Allocates the buffer of the copy at `dst`.
fn transfer_allocate<T: Memory, U: Memory>(host: &mut Shadow<U>, dst: u64, trusted: &T, src: u64) -> (r:
    Result<(), Error>)
    requires
        old(host).wf(),
    ensures
        final(host).wf(),
        (r, final(host)@) == transfer_allocated(old(host)@, dst, trusted.bytes(), src),
{
    reveal(transfer_allocated);
    let size: u64 = read_u64(trusted, field(src, TRANSFER_SIZE));
    alloc_into(host, field(dst, TRANSFER_DATA_PTR), u64_size(size))
}

/// Copies the scalar fields and, where `with_data` says so, the buffer.
fn transfer_copy<D: Memory, S: Memory>(
    dst_mem: &mut D,
    dst: u64,
    src_mem: &S,
    src: u64,
    with_data: bool,
)
    ensures
        final(dst_mem).bytes() == transfer_copied(
            old(dst_mem).bytes(),
            dst,
            src_mem.bytes(),
            src,
            with_data,
        ),
{
    reveal(transfer_copied);
    copy(dst_mem, dst, src_mem, src, TRANSFER_SCALARS);
    let size: u64 = read_u64(src_mem, field(src, TRANSFER_SIZE));
    if with_data && size > 0 {
        copy_payload(
            dst_mem,
            field(dst, TRANSFER_DATA_PTR),
            src_mem,
            field(src, TRANSFER_DATA_PTR),
            u64_size(size),
        );
    }
}

/// Gives back the buffer of the copy at `addr`.
fn transfer_free<U: Memory>(host: &mut Shadow<U>, addr: u64)
    requires
        old(host).wf(),
    ensures
        final(host).wf(),
        final(host)@ == transfer_freed(old(host)@, addr),
{
    reveal(transfer_freed);
    let size: u64 = read_u64(&host.memory, field(addr, TRANSFER_SIZE));
    free_from(host, field(addr, TRANSFER_DATA_PTR), u64_size(size));
}

/// The argument of a read from a buffer object.
#[allow(non_camel_case_types)]
pub struct drm_i915_gem_pread {}

impl drm_i915_gem_pread {
    /// Size of the argument itself.
    pub const SIZE: usize = 32;

    /// Allocates the buffer of the copy at `dst`.
    pub fn allocate<T: Memory, U: Memory>(host: &mut Shadow<U>, dst: u64, trusted: &T, src: u64) -> (r:
        Result<(), Error>)
        requires
            old(host).wf(),
        ensures
            final(host).wf(),
            (r, final(host)@) == transfer_allocated(old(host)@, dst, trusted.bytes(), src),
    {
        reveal(transfer_allocated);
        transfer_allocate(host, dst, trusted, src)
    }

    /// Copies the structure at `src` to the one at `dst`, and on the way back
    /// what was read.
    pub fn copy<D: Memory, S: Memory>(
        dst_mem: &mut D,
        dst: u64,
        src_mem: &S,
        src: u64,
        direction: Direction,
    ) -> (r: Result<(), Error>)
        ensures
            r == Ok::<(), Error>(()),
            final(dst_mem).bytes() == transfer_copied(
                old(dst_mem).bytes(),
                dst,
                src_mem.bytes(),
                src,
                direction == Direction::u2t,
            ),
    {
        reveal(transfer_copied);
        transfer_copy(dst_mem, dst, src_mem, src, direction == Direction::u2t);
        Ok(())
    }

    /// Gives back the buffer of the copy at `addr`.
    pub fn free<U: Memory>(host: &mut Shadow<U>, addr: u64) -> (r: Result<(), Error>)
        requires
            old(host).wf(),
        ensures
            final(host).wf(),
            r == Ok::<(), Error>(()),
            final(host)@ == transfer_freed(old(host)@, addr),
    {
        reveal(transfer_freed);
        transfer_free(host, addr);
        Ok(())
    }
}

/// The argument of a write to a buffer object.
#[allow(non_camel_case_types)]
pub struct drm_i915_gem_pwrite {}

impl drm_i915_gem_pwrite {
    /// Size of the argument itself.
    pub const SIZE: usize = 32;

    /// Allocates the buffer of the copy at `dst`.
    pub fn allocate<T: Memory, U: Memory>(host: &mut Shadow<U>, dst: u64, trusted: &T, src: u64) -> (r:
        Result<(), Error>)
        requires
            old(host).wf(),
        ensures
            final(host).wf(),
            (r, final(host)@) == transfer_allocated(old(host)@, dst, trusted.bytes(), src),
    {
        reveal(transfer_allocated);
        transfer_allocate(host, dst, trusted, src)
    }

    /// Copies the structure at `src` to the one at `dst`, and on the way out
    /// what is to be written.
    pub fn copy<D: Memory, S: Memory>(
        dst_mem: &mut D,
        dst: u64,
        src_mem: &S,
        src: u64,
        direction: Direction,
    ) -> (r: Result<(), Error>)
        ensures
            r == Ok::<(), Error>(()),
            final(dst_mem).bytes() == transfer_copied(
                old(dst_mem).bytes(),
                dst,
                src_mem.bytes(),
                src,
                direction == Direction::t2u,
            ),
    {
        reveal(transfer_copied);
        transfer_copy(dst_mem, dst, src_mem, src, direction == Direction::t2u);
        Ok(())
    }

    /// Gives back the buffer of the copy at `addr`.
    pub fn free<U: Memory>(host: &mut Shadow<U>, addr: u64) -> (r: Result<(), Error>)
        requires
            old(host).wf(),
        ensures
            final(host).wf(),
            r == Ok::<(), Error>(()),
            final(host)@ == transfer_freed(old(host)@, addr),
    {
        reveal(transfer_freed);
        transfer_free(host, addr);
        Ok(())
    }
}

} // verus!
