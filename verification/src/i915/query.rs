//! Queries.
//!
//! The argument points to an array of items. Every item names a query and
//! points to a buffer of `length` bytes for the answer. An item whose length
//! is zero asks for the length of the answer: the driver writes it to the
//! item, and only the length comes back.

use vstd::prelude::*;
use crate::error::Error;
use crate::i915::Direction;
use crate::shadow::{
    Shadow, ShadowView, alloc_into, allocated_into, array_bytes, array_size, copy_payload, field,
    free_from, freed_from, i32_size, payload_copied, size_of_i32,
};
use crate::space::{
    Bytes, Memory, at, copied, copy, i32_at, read_i32, read_u32, read_u64, u32_at, u64_at,
};

verus! {

/// One item of a query: `query_id`, `length`, `flags` and the address
/// `data_ptr` of the buffer for the answer.
#[allow(non_camel_case_types)]
pub struct drm_i915_query_item {}

/// Offset of the length of the answer.
pub const QUERY_ITEM_LENGTH: u64 = 8;

/// Offset of the address of the buffer for the answer.
pub const QUERY_ITEM_DATA_PTR: u64 = 16;

/// Size of the scalar fields `query_id`, `length`, `flags`.
pub const QUERY_ITEM_SCALARS: usize = 16;

impl drm_i915_query_item {
    /// Size of an item.
    pub const SIZE: usize = 24;

    /// What allocating the buffer of the copy at `dst` does, for the item at
    /// `src` in the trusted memory `t`.
    #[verifier::opaque]
    pub open spec fn allocated(h: ShadowView, dst: u64, t: Bytes, src: u64) -> (
        Result<(), Error>,
        ShadowView,
    ) {
        allocated_into(h, at(dst, 16), size_of_i32(i32_at(t, at(src, 8))))
    }

    /// Allocates the buffer of the copy at `dst`, as long as that of the item
    /// at `src`.
    pub fn allocate<T: Memory, U: Memory>(host: &mut Shadow<U>, dst: u64, trusted: &T, src: u64) -> (r:
        Result<(), Error>)
        requires
            old(host).wf(),
        ensures
            final(host).wf(),
            (r, final(host)@) == Self::allocated(old(host)@, dst, trusted.bytes(), src),
    {
        reveal(drm_i915_query_item::allocated);
        let length: i32 = read_i32(trusted, field(src, QUERY_ITEM_LENGTH));
        alloc_into(host, field(dst, QUERY_ITEM_DATA_PTR), i32_size(length))
    }

    /// What copying the item at `src` to the item at `dst` does: the scalar
    /// fields are copied, then as many bytes of the answer as the length of
    /// the source says.
    #[verifier::opaque]
    pub open spec fn copy_result(d: Bytes, dst: u64, s: Bytes, src: u64) -> Bytes {
        let d1 = copied(d, dst, s, src, QUERY_ITEM_SCALARS as nat);
        let length = i32_at(s, at(src, 8));
        if length > 0 {
            payload_copied(d1, at(dst, 16), s, at(src, 16), length as usize)
        } else {
            d1
        }
    }

    /// Copies the item at `src` and its answer to the item at `dst`.
    pub fn copy<D: Memory, S: Memory>(dst_mem: &mut D, dst: u64, src_mem: &S, src: u64)
        ensures
            final(dst_mem).bytes() == Self::copy_result(
                old(dst_mem).bytes(),
                dst,
                src_mem.bytes(),
                src,
            ),
    {
        reveal(drm_i915_query_item::copy_result);
        copy(dst_mem, dst, src_mem, src, QUERY_ITEM_SCALARS);
        let length: i32 = read_i32(src_mem, field(src, QUERY_ITEM_LENGTH));
        if length > 0 {
            copy_payload(
                dst_mem,
                field(dst, QUERY_ITEM_DATA_PTR),
                src_mem,
                field(src, QUERY_ITEM_DATA_PTR),
                length as usize,
            );
        }
    }

    /// The untrusted side after the buffer of the copy at `addr` has been
    /// given back.
    #[verifier::opaque]
    pub open spec fn freed(h: ShadowView, addr: u64) -> ShadowView {
        freed_from(h, at(addr, 16), size_of_i32(i32_at(h.bytes, at(addr, 8))))
    }

    /// Gives back the buffer of the copy at `addr`, with the length that the
    /// copy holds.
    pub fn free<U: Memory>(host: &mut Shadow<U>, addr: u64) -> (r: Result<(), Error>)
        requires
            old(host).wf(),
        ensures
            final(host).wf(),
            r == Ok::<(), Error>(()),
            final(host)@ == Self::freed(old(host)@, addr),
    {
        reveal(drm_i915_query_item::freed);
        let length: i32 = read_i32(&host.memory, field(addr, QUERY_ITEM_LENGTH));
        free_from(host, field(addr, QUERY_ITEM_DATA_PTR), i32_size(length));
        Ok(())
    }
}

/// The argument of a query: `num_items`, `flags` and the address `items_ptr`
/// of the array of items.
#[allow(non_camel_case_types)]
#[derive(Debug, Clone, Copy, PartialEq, Eq, Structural)]
pub struct drm_i915_query {
    /// The number of items.
    pub num_items: u32,
    /// Flags of the query.
    pub flags: u32,
    /// The address of the first item.
    pub items_ptr: u64,
}

/// Offset of the address of the array of items.
pub const QUERY_ITEMS_PTR: u64 = 8;

/// Size of the scalar fields `num_items` and `flags`.
pub const QUERY_SCALARS: usize = 8;

impl drm_i915_query {
    /// Size of the argument itself.
    pub const SIZE: usize = 16;

    /// The structure at `addr` in `m`.
    pub open spec fn at(m: Bytes, addr: u64) -> drm_i915_query {
        drm_i915_query {
            num_items: u32_at(m, addr),
            flags: u32_at(m, at(addr, 4)),
            items_ptr: u64_at(m, at(addr, 8)),
        }
    }

    /// Reads the structure at `addr`.
    pub fn load<M: Memory>(mem: &M, addr: u64) -> (q: drm_i915_query)
        ensures
            q == Self::at(mem.bytes(), addr),
    {
        drm_i915_query {
            num_items: read_u32(mem, addr),
            flags: read_u32(mem, field(addr, 4)),
            items_ptr: read_u64(mem, field(addr, QUERY_ITEMS_PTR)),
        }
    }

    /// The size in bytes of an array of `num_items` items.
    pub fn items_size(num_items: u32) -> (r: Result<usize, Error>)
        ensures
            r == array_size(drm_i915_query_item::SIZE, num_items as usize),
    {
        array_bytes(drm_i915_query_item::SIZE, num_items as usize)
    }

    /// What the alloc phase does for the items from `i` on: every item of the
    /// copy gets its buffer, until the array ends or a step fails.
    pub open spec fn items_allocated(h: ShadowView, dst: u64, t: Bytes, src: u64, i: nat, n: nat) -> (
        Result<(), Error>,
        ShadowView,
    )
        decreases n - i,
    {
        if i >= n {
            (Ok(()), h)
        } else {
            match array_size(drm_i915_query_item::SIZE, i as usize) {
                Err(e) => (Err(e), h),
                Ok(off) => {
                    let (r, h1) = drm_i915_query_item::allocated(
                        h,
                        at(u64_at(h.bytes, at(dst, 8)), off as int),
                        t,
                        at(u64_at(t, at(src, 8)), off as int),
                    );
                    if r is Err {
                        (r, h1)
                    } else {
                        Self::items_allocated(h1, dst, t, src, i + 1, n)
                    }
                },
            }
        }
    }

    /// What the alloc phase does for the argument at `src` and its copy at
    /// `dst`: the copy gets an array as long as that of the source, and every
    /// item of it its buffer.
    #[verifier::opaque]
    pub open spec fn allocated(h: ShadowView, dst: u64, t: Bytes, src: u64) -> (
        Result<(), Error>,
        ShadowView,
    ) {
        let n = u32_at(t, src);
        match array_size(drm_i915_query_item::SIZE, n as usize) {
            Err(e) => (Err(e), h),
            Ok(size) => {
                let (r, h1) = allocated_into(h, at(dst, 8), size);
                if r is Err {
                    (r, h1)
                } else {
                    Self::items_allocated(h1, dst, t, src, 0, n as nat)
                }
            },
        }
    }

    /// Allocates the array of the copy at `dst` and the buffer of each of its
    /// items.
    pub fn allocate<T: Memory, U: Memory>(host: &mut Shadow<U>, dst: u64, trusted: &T, src: u64) -> (r:
        Result<(), Error>)
        requires
            old(host).wf(),
        ensures
            final(host).wf(),
            (r, final(host)@) == Self::allocated(old(host)@, dst, trusted.bytes(), src),
    {
        reveal(drm_i915_query::allocated);
        let num_items: u32 = read_u32(trusted, src);
        let size: usize = Self::items_size(num_items)?;
        alloc_into(host, field(dst, QUERY_ITEMS_PTR), size)?;
        let mut i: u32 = 0;
        while i < num_items
            invariant
                host.wf(),
                i <= num_items,
                Self::items_allocated(host@, dst, trusted.bytes(), src, i as nat, num_items as nat)
                    == Self::allocated(old(host)@, dst, trusted.bytes(), src),
            decreases num_items - i,
        {
            let off: usize = array_bytes(drm_i915_query_item::SIZE, i as usize)?;
            let s: u64 = field(read_u64(trusted, field(src, QUERY_ITEMS_PTR)), off as u64);
            let d: u64 = field(read_u64(&host.memory, field(dst, QUERY_ITEMS_PTR)), off as u64);
            drm_i915_query_item::allocate(host, d, trusted, s)?;
            i = i + 1;
        }
        Ok(())
    }

    /// What a copy does for one item: on the way back an item of the
    /// destination with length zero takes the length of the source and
    /// nothing else; every other item is copied with its answer.
    pub open spec fn item_copied(d: Bytes, di: u64, s: Bytes, si: u64, direction: Direction) -> Bytes {
        if direction == Direction::u2t && i32_at(d, at(di, 8)) == 0 {
            copied(d, at(di, 8), s, at(si, 8), 4)
        } else {
            drm_i915_query_item::copy_result(d, di, s, si)
        }
    }

    /// What a copy does for the items from `i` on.
    pub open spec fn items_copied(
        d: Bytes,
        dst: u64,
        s: Bytes,
        src: u64,
        direction: Direction,
        i: nat,
        n: nat,
    ) -> (Result<(), Error>, Bytes)
        decreases n - i,
    {
        if i >= n {
            (Ok(()), d)
        } else {
            match array_size(drm_i915_query_item::SIZE, i as usize) {
                Err(e) => (Err(e), d),
                Ok(off) => Self::items_copied(
                    Self::item_copied(
                        d,
                        at(u64_at(d, at(dst, 8)), off as int),
                        s,
                        at(u64_at(s, at(src, 8)), off as int),
                        direction,
                    ),
                    dst,
                    s,
                    src,
                    direction,
                    i + 1,
                    n,
                ),
            }
        }
    }

    /// What a copy from the structure at `src` in `s` to the one at `dst` in
    /// `d` does: the scalar fields are copied, then the items, as many as the
    /// source has.
    #[verifier::opaque]
    pub open spec fn copy_result(d: Bytes, dst: u64, s: Bytes, src: u64, direction: Direction) -> (
        Result<(), Error>,
        Bytes,
    ) {
        Self::items_copied(
            copied(d, dst, s, src, QUERY_SCALARS as nat),
            dst,
            s,
            src,
            direction,
            0,
            u32_at(s, src) as nat,
        )
    }

    /// Copies the structure at `src` to the one at `dst`, item by item.
    pub fn copy<D: Memory, S: Memory>(
        dst_mem: &mut D,
        dst: u64,
        src_mem: &S,
        src: u64,
        direction: Direction,
    ) -> (r: Result<(), Error>)
        ensures
            (r, final(dst_mem).bytes()) == Self::copy_result(
                old(dst_mem).bytes(),
                dst,
                src_mem.bytes(),
                src,
                direction,
            ),
    {
        reveal(drm_i915_query::copy_result);
        copy(dst_mem, dst, src_mem, src, QUERY_SCALARS);
        let num_items: u32 = read_u32(src_mem, src);
        let mut i: u32 = 0;
        while i < num_items
            invariant
                i <= num_items,
                Self::items_copied(
                    dst_mem.bytes(),
                    dst,
                    src_mem.bytes(),
                    src,
                    direction,
                    i as nat,
                    num_items as nat,
                ) == Self::copy_result(old(dst_mem).bytes(), dst, src_mem.bytes(), src, direction),
            decreases num_items - i,
        {
            let off: usize = array_bytes(drm_i915_query_item::SIZE, i as usize)?;
            let s: u64 = field(read_u64(src_mem, field(src, QUERY_ITEMS_PTR)), off as u64);
            let d: u64 = field(read_u64(dst_mem, field(dst, QUERY_ITEMS_PTR)), off as u64);
            if direction == Direction::u2t && read_i32(dst_mem, field(d, QUERY_ITEM_LENGTH)) == 0 {
                copy(
                    dst_mem,
                    field(d, QUERY_ITEM_LENGTH),
                    src_mem,
                    field(s, QUERY_ITEM_LENGTH),
                    4,
                );
            } else {
                drm_i915_query_item::copy(dst_mem, d, src_mem, s);
            }
            i = i + 1;
        }
        Ok(())
    }

    /// What the free phase does for the items from `i` on.
    pub open spec fn items_freed(h: ShadowView, addr: u64, i: nat, n: nat) -> (
        Result<(), Error>,
        ShadowView,
    )
        decreases n - i,
    {
        if i >= n {
            (Ok(()), h)
        } else {
            match array_size(drm_i915_query_item::SIZE, i as usize) {
                Err(e) => (Err(e), h),
                Ok(off) => Self::items_freed(
                    drm_i915_query_item::freed(h, at(u64_at(h.bytes, at(addr, 8)), off as int)),
                    addr,
                    i + 1,
                    n,
                ),
            }
        }
    }

    /// What the free phase does for the copy at `addr`: the buffer of every
    /// item is given back, then the array, in the size that the number of
    /// items of the copy gives.
    #[verifier::opaque]
    pub open spec fn freed(h: ShadowView, addr: u64) -> (Result<(), Error>, ShadowView) {
        let n = u32_at(h.bytes, addr);
        match array_size(drm_i915_query_item::SIZE, n as usize) {
            Err(e) => (Err(e), h),
            Ok(size) => {
                let (r, h1) = Self::items_freed(h, addr, 0, n as nat);
                if r is Err {
                    (r, h1)
                } else {
                    (Ok(()), freed_from(h1, at(addr, 8), size))
                }
            },
        }
    }

    /// Gives back what the alloc phase allocated for the copy at `addr`.
    pub fn free<U: Memory>(host: &mut Shadow<U>, addr: u64) -> (r: Result<(), Error>)
        requires
            old(host).wf(),
        ensures
            final(host).wf(),
            (r, final(host)@) == Self::freed(old(host)@, addr),
    {
        reveal(drm_i915_query::freed);
        let num_items: u32 = read_u32(&host.memory, addr);
        let size: usize = Self::items_size(num_items)?;
        let mut i: u32 = 0;
        while i < num_items
            invariant
                host.wf(),
                i <= num_items,
                host@.bytes == old(host)@.bytes,
                num_items == u32_at(old(host)@.bytes, addr),
                array_size(drm_i915_query_item::SIZE, num_items as usize) == Ok::<usize, Error>(
                    size,
                ),
                Self::items_freed(host@, addr, i as nat, num_items as nat) == Self::items_freed(
                    old(host)@,
                    addr,
                    0,
                    num_items as nat,
                ),
            decreases num_items - i,
        {
            let off: usize = array_bytes(drm_i915_query_item::SIZE, i as usize)?;
            let item: u64 = field(read_u64(&host.memory, field(addr, QUERY_ITEMS_PTR)), off as u64);
            proof {
                reveal(drm_i915_query_item::freed);
            }
            drm_i915_query_item::free(host, item)?;
            i = i + 1;
        }
        free_from(host, field(addr, QUERY_ITEMS_PTR), size);
        Ok(())
    }
}

} // verus!
