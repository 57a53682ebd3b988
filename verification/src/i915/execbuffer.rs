//! Submission of a batch buffer.
//!
//! The argument points to an array of buffer objects and to an array of
//! fences, and holds the length of each.

use vstd::prelude::*;
use crate::error::Error;
use crate::i915::Direction;
use crate::memory::PTR_NULL;
use crate::shadow::{
    Shadow, ShadowView, alloc_into, allocated_into, array_bytes, array_size, copy_payload, field,
    free_from, freed_from, payload_copied,
};
use crate::space::{Bytes, Memory, at, copied, copy, read_u32, u32_at, with_u64, write_u64};

verus! {

/// Size of one buffer object of the array.
pub const EXEC_OBJECT2_SIZE: usize = 56;

/// Size of one fence of the array.
pub const EXEC_FENCE_SIZE: usize = 8;

/// The argument of a submission.
#[allow(non_camel_case_types)]
pub struct drm_i915_gem_execbuffer2 {}

/// Offset of the address of the array of buffer objects.
pub const EXEC_BUFFERS_PTR: u64 = 0;

/// Offset of the number of buffer objects.
pub const EXEC_BUFFER_COUNT: u64 = 8;

/// Offset of the number of fences.
pub const EXEC_NUM_CLIPRECTS: u64 = 28;

/// Offset of the address of the array of fences.
pub const EXEC_CLIPRECTS_PTR: u64 = 32;

/// Offset of the scalar fields after the address of the fences: `flags` and
/// two reserved words.
pub const EXEC_FLAGS: u64 = 40;

/// Size of the scalar fields from the number of buffer objects up to, but not
/// including, the number of fences.
pub const EXEC_BATCH_SCALARS: usize = 20;

/// Size of the scalar fields after the address of the fences.
pub const EXEC_TAIL_SCALARS: usize = 24;

/// What allocating an array of `count` elements of `element` bytes for the
/// pointer at `ptr` does: an empty array is `PTR_NULL`.
pub open spec fn array_allocated(h: ShadowView, ptr: u64, element: usize, count: u32) -> (
    Result<(), Error>,
    ShadowView,
) {
    if count > 0 {
        match array_size(element, count as usize) {
            Ok(size) => allocated_into(h, ptr, size),
            Err(e) => (Err(e), h),
        }
    } else {
        (Ok(()), ShadowView { arenas: h.arenas, bytes: with_u64(h.bytes, ptr, PTR_NULL) })
    }
}

/// What copying an array of `count` elements of `element` bytes does.
pub open spec fn array_copied(d: Bytes, dp: u64, s: Bytes, sp: u64, element: usize, count: u32) -> (
    Result<(), Error>,
    Bytes,
) {
    if count > 0 {
        match array_size(element, count as usize) {
            Ok(size) => (Ok(()), payload_copied(d, dp, s, sp, size)),
            Err(e) => (Err(e), d),
        }
    } else {
        (Ok(()), d)
    }
}

/// What giving back an array of `count` elements of `element` bytes does.
pub open spec fn array_freed(h: ShadowView, ptr: u64, element: usize, count: u32) -> (
    Result<(), Error>,
    ShadowView,
) {
    if count > 0 {
        match array_size(element, count as usize) {
            Ok(size) => (Ok(()), freed_from(h, ptr, size)),
            Err(e) => (Err(e), h),
        }
    } else {
        (Ok(()), h)
    }
}

/// Allocates an array of `count` elements of `element` bytes for the pointer
/// at `ptr`.
fn array_allocate<U: Memory>(host: &mut Shadow<U>, ptr: u64, element: usize, count: u32) -> (r:
    Result<(), Error>)
    requires
        old(host).wf(),
    ensures
        final(host).wf(),
        (r, final(host)@) == array_allocated(old(host)@, ptr, element, count),
{
    if count > 0 {
        let size: usize = array_bytes(element, count as usize)?;
        alloc_into(host, ptr, size)
    } else {
        write_u64(&mut host.memory, ptr, PTR_NULL);
        Ok(())
    }
}

/// Copies an array of `count` elements of `element` bytes.
fn array_copy<D: Memory, S: Memory>(
    dst_mem: &mut D,
    dp: u64,
    src_mem: &S,
    sp: u64,
    element: usize,
    count: u32,
) -> (r: Result<(), Error>)
    ensures
        (r, final(dst_mem).bytes()) == array_copied(
            old(dst_mem).bytes(),
            dp,
            src_mem.bytes(),
            sp,
            element,
            count,
        ),
{
    if count > 0 {
        let size: usize = array_bytes(element, count as usize)?;
        copy_payload(dst_mem, dp, src_mem, sp, size);
    }
    Ok(())
}

/// Gives back an array of `count` elements of `element` bytes.
fn array_free<U: Memory>(host: &mut Shadow<U>, ptr: u64, element: usize, count: u32) -> (r: Result<
    (),
    Error,
>)
    requires
        old(host).wf(),
    ensures
        final(host).wf(),
        (r, final(host)@) == array_freed(old(host)@, ptr, element, count),
{
    if count > 0 {
        let size: usize = array_bytes(element, count as usize)?;
        free_from(host, ptr, size);
    }
    Ok(())
}

impl drm_i915_gem_execbuffer2 {
    /// Size of the argument itself.
    pub const SIZE: usize = 64;

    /// What the alloc phase does for the argument at `src` and its copy at
    /// `dst`: the copy gets an array of buffer objects and an array of fences,
    /// each as long as the source says.
    #[verifier::opaque]
    pub open spec fn allocated(h: ShadowView, dst: u64, t: Bytes, src: u64) -> (
        Result<(), Error>,
        ShadowView,
    ) {
        let (r1, h1) = array_allocated(h, dst, EXEC_OBJECT2_SIZE, u32_at(t, at(src, 8)));
        if r1 is Err {
            (r1, h1)
        } else {
            array_allocated(h1, at(dst, 32), EXEC_FENCE_SIZE, u32_at(t, at(src, 28)))
        }
    }

    /// Allocates the two arrays of the copy at `dst`.
    pub fn allocate<T: Memory, U: Memory>(host: &mut Shadow<U>, dst: u64, trusted: &T, src: u64) -> (r:
        Result<(), Error>)
        requires
            old(host).wf(),
        ensures
            final(host).wf(),
            (r, final(host)@) == Self::allocated(old(host)@, dst, trusted.bytes(), src),
    {
        reveal(drm_i915_gem_execbuffer2::allocated);
        let buffer_count: u32 = read_u32(trusted, field(src, EXEC_BUFFER_COUNT));
        array_allocate(host, field(dst, EXEC_BUFFERS_PTR), EXEC_OBJECT2_SIZE, buffer_count)?;
        let num_cliprects: u32 = read_u32(trusted, field(src, EXEC_NUM_CLIPRECTS));
        array_allocate(host, field(dst, EXEC_CLIPRECTS_PTR), EXEC_FENCE_SIZE, num_cliprects)
    }

    /// What a copy from the structure at `src` in `s` to the one at `dst` in
    /// `d` does: the scalar fields but the number of fences are copied, then
    /// the buffer objects, the number of fences and the fences.
    #[verifier::opaque]
    pub open spec fn copy_result(d: Bytes, dst: u64, s: Bytes, src: u64) -> (Result<(), Error>, Bytes) {
        let d1 = copied(d, at(dst, 8), s, at(src, 8), EXEC_BATCH_SCALARS as nat);
        let d2 = copied(d1, at(dst, 40), s, at(src, 40), EXEC_TAIL_SCALARS as nat);
        let (r3, d3) = array_copied(d2, dst, s, src, EXEC_OBJECT2_SIZE, u32_at(s, at(src, 8)));
        if r3 is Err {
            (r3, d3)
        } else {
            let d4 = copied(d3, at(dst, 28), s, at(src, 28), 4);
            array_copied(d4, at(dst, 32), s, at(src, 32), EXEC_FENCE_SIZE, u32_at(s, at(src, 28)))
        }
    }

    /// Copies the structure at `src` and its two arrays to the one at `dst`.
    /// The direction makes no difference.
    pub fn copy<D: Memory, S: Memory>(
        dst_mem: &mut D,
        dst: u64,
        src_mem: &S,
        src: u64,
        direction: Direction,
    ) -> (r: Result<(), Error>)
        ensures
            (r, final(dst_mem).bytes()) == Self::copy_result(
                old(dst_mem).bytes(),
                dst,
                src_mem.bytes(),
                src,
            ),
    {
        reveal(drm_i915_gem_execbuffer2::copy_result);
        copy(
            dst_mem,
            field(dst, EXEC_BUFFER_COUNT),
            src_mem,
            field(src, EXEC_BUFFER_COUNT),
            EXEC_BATCH_SCALARS,
        );
        copy(dst_mem, field(dst, EXEC_FLAGS), src_mem, field(src, EXEC_FLAGS), EXEC_TAIL_SCALARS);
        let buffer_count: u32 = read_u32(src_mem, field(src, EXEC_BUFFER_COUNT));
        array_copy(
            dst_mem,
            field(dst, EXEC_BUFFERS_PTR),
            src_mem,
            field(src, EXEC_BUFFERS_PTR),
            EXEC_OBJECT2_SIZE,
            buffer_count,
        )?;
        copy(
            dst_mem,
            field(dst, EXEC_NUM_CLIPRECTS),
            src_mem,
            field(src, EXEC_NUM_CLIPRECTS),
            4,
        );
        let num_cliprects: u32 = read_u32(src_mem, field(src, EXEC_NUM_CLIPRECTS));
        array_copy(
            dst_mem,
            field(dst, EXEC_CLIPRECTS_PTR),
            src_mem,
            field(src, EXEC_CLIPRECTS_PTR),
            EXEC_FENCE_SIZE,
            num_cliprects,
        )
    }

    /// What the free phase does for the copy at `addr`: both arrays are given
    /// back, in the sizes that the lengths of the copy give.
    #[verifier::opaque]
    pub open spec fn freed(h: ShadowView, addr: u64) -> (Result<(), Error>, ShadowView) {
        let (r1, h1) = array_freed(h, addr, EXEC_OBJECT2_SIZE, u32_at(h.bytes, at(addr, 8)));
        if r1 is Err {
            (r1, h1)
        } else {
            array_freed(h1, at(addr, 32), EXEC_FENCE_SIZE, u32_at(h.bytes, at(addr, 28)))
        }
    }

    /// Gives back the two arrays of the copy at `addr`.
    pub fn free<U: Memory>(host: &mut Shadow<U>, addr: u64) -> (r: Result<(), Error>)
        requires
            old(host).wf(),
        ensures
            final(host).wf(),
            (r, final(host)@) == Self::freed(old(host)@, addr),
    {
        reveal(drm_i915_gem_execbuffer2::freed);
        let buffer_count: u32 = read_u32(&host.memory, field(addr, EXEC_BUFFER_COUNT));
        let num_cliprects: u32 = read_u32(&host.memory, field(addr, EXEC_NUM_CLIPRECTS));
        array_free(host, field(addr, EXEC_BUFFERS_PTR), EXEC_OBJECT2_SIZE, buffer_count)?;
        array_free(host, field(addr, EXEC_CLIPRECTS_PTR), EXEC_FENCE_SIZE, num_cliprects)
    }
}

} // verus!
