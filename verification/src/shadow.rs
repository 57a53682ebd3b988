//! The untrusted side of a call: the arenas of host-shared memory together
//! with that memory, and the operations on buffers that every marshaller is
//! made of.

use vstd::prelude::*;
use crate::buddy_alloc::arenas_nonzero;
use crate::buddy_alloc::{Arena, BuddyAllocatorManager};
use crate::error::Error;
use crate::memory::{allocate, allocation, free, lemma_nonzero_serves, released};
use crate::space::{Bytes, Memory, at, copied, copy, read_u64, u64_at, with_u64, write_u64};

verus! {

/// The arenas of host-shared memory and the memory in which they lie.
pub struct Shadow<U: Memory> {
    /// The arenas.
    pub manager: BuddyAllocatorManager,
    /// The untrusted memory.
    pub memory: U,
}

/// The mathematical state of the untrusted side.
pub struct ShadowView {
    /// The arenas.
    pub arenas: Seq<Arena>,
    /// The contents of the untrusted memory.
    pub bytes: Bytes,
}

impl<U: Memory> View for Shadow<U> {
    type V = ShadowView;

    open spec fn view(&self) -> ShadowView {
        ShadowView { arenas: self.manager@, bytes: self.memory.bytes() }
    }
}

impl<U: Memory> Shadow<U> {
    /// Whether the arenas are in order and none begins at address zero,
    /// which stands for no buffer.
    pub open spec fn wf(&self) -> bool {
        self.manager.wf() && arenas_nonzero(self.manager@)
    }
}

/// The size that a 64-bit number stands for: its low bits, as many as `usize`
/// has.
pub open spec fn size_of_u64(v: u64) -> usize {
    if v <= usize::MAX {
        v as usize
    } else {
        (v % 0x1_0000_0000) as usize
    }
}

/// The size that a signed 32-bit number stands for: a negative number stands
/// for a size near the top of `usize`.
pub open spec fn size_of_i32(v: i32) -> usize {
    if v >= 0 {
        v as usize
    } else {
        (usize::MAX + 1 + v) as usize
    }
}

/// The size that a 64-bit number stands for.
pub fn u64_size(v: u64) -> (r: usize)
    ensures
        r == size_of_u64(v),
{
    if v <= usize::MAX as u64 {
        v as usize
    } else {
        (v % 0x1_0000_0000) as usize
    }
}

/// The size that a signed 32-bit number stands for.
pub fn i32_size(v: i32) -> (r: usize)
    ensures
        r == size_of_i32(v),
{
    if v >= 0 {
        v as usize
    } else {
        usize::MAX - ((-(v + 1)) as usize)
    }
}

/// The product of an element size and a count, where it fits in `usize`.
pub open spec fn array_size(element: usize, count: usize) -> Result<usize, Error> {
    if element * count <= usize::MAX {
        Ok((element * count) as usize)
    } else {
        Err(Error::MulOverflow)
    }
}

/// The size in bytes of `count` elements of `element` bytes each.
pub fn array_bytes(element: usize, count: usize) -> (r: Result<usize, Error>)
    ensures
        r == array_size(element, count),
{
    match element.checked_mul(count) {
        Some(size) => Ok(size),
        None => Err(Error::MulOverflow),
    }
}

/// What allocating a buffer of `size` bytes for the pointer at `field` does:
/// the pointer holds the address of the buffer, or nothing changes and the
/// error of the request is returned.
pub open spec fn allocated_into(h: ShadowView, field: u64, size: usize) -> (
    Result<(), Error>,
    ShadowView,
) {
    match allocation(h.arenas, size).0 {
        Ok(ptr) => (
            Ok(()),
            ShadowView { arenas: allocation(h.arenas, size).1, bytes: with_u64(h.bytes, field, ptr) },
        ),
        Err(e) => (Err(e), h),
    }
}

/// The untrusted side after the buffer of `size` bytes to which the pointer at
/// `field` points has been given back.
pub open spec fn freed_from(h: ShadowView, field: u64, size: usize) -> ShadowView {
    ShadowView { arenas: released(h.arenas, u64_at(h.bytes, field), size), bytes: h.bytes }
}

/// The memory `d` after `len` bytes have been copied from the buffer to which
/// the pointer at `src_field` of `s` points into the buffer to which the
/// pointer at `dst_field` of `d` points.
pub open spec fn payload_copied(d: Bytes, dst_field: u64, s: Bytes, src_field: u64, len: usize) -> Bytes {
    copied(d, u64_at(d, dst_field), s, u64_at(s, src_field), len as nat)
}

/// Allocates a buffer of `size` bytes and writes its address to the pointer at
/// `field`.
pub fn alloc_into<U: Memory>(host: &mut Shadow<U>, field: u64, size: usize) -> (r: Result<
    (),
    Error,
>)
    requires
        old(host).wf(),
    ensures
        final(host).wf(),
        (r, final(host)@) == allocated_into(old(host)@, field, size),
{
    proof {
        lemma_nonzero_serves(host.manager@, size);
    }
    match allocate(&mut host.manager, size) {
        Ok(ptr) => {
            write_u64(&mut host.memory, field, ptr);
            Ok(())
        },
        Err(e) => Err(e),
    }
}

/// Gives back the buffer of `size` bytes to which the pointer at `field`
/// points.
pub fn free_from<U: Memory>(host: &mut Shadow<U>, field: u64, size: usize)
    requires
        old(host).wf(),
    ensures
        final(host).wf(),
        final(host)@ == freed_from(old(host)@, field, size),
{
    let ptr: u64 = read_u64(&host.memory, field);
    let _ = free(&mut host.manager, ptr, size);
}

/// Copies `len` bytes from the buffer to which the pointer at `src_field`
/// points into the buffer to which the pointer at `dst_field` points.
pub fn copy_payload<D: Memory, S: Memory>(
    dst_mem: &mut D,
    dst_field: u64,
    src_mem: &S,
    src_field: u64,
    len: usize,
)
    ensures
        final(dst_mem).bytes() == payload_copied(
            old(dst_mem).bytes(),
            dst_field,
            src_mem.bytes(),
            src_field,
            len,
        ),
{
    let dst: u64 = read_u64(dst_mem, dst_field);
    let src: u64 = read_u64(src_mem, src_field);
    copy(dst_mem, dst, src_mem, src, len);
}

/// The address `off` bytes after `addr`.
pub fn field(addr: u64, off: u64) -> (r: u64)
    ensures
        r == at(addr, off as int),
{
    addr.wrapping_add(off)
}

} // verus!
