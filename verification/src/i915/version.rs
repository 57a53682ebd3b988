//! Driver version and driver parameters.
//!
//! The version argument carries three texts, each as a length and the address
//! of a buffer. A length of zero asks for the length of the text: the driver
//! writes it, and only the length comes back.

use vstd::prelude::*;
use crate::error::Error;
use crate::i915::Direction;
use crate::shadow::{
    Shadow, ShadowView, alloc_into, allocated_into, copy_payload, field, free_from, freed_from,
    payload_copied, size_of_u64, u64_size,
};
use crate::space::{Bytes, Memory, at, copied, copy, i32_at, read_i32, read_u64, u64_at};

verus! {

/// The version of the driver: three numbers, and name, date and description,
/// each as a length and the address of a buffer.
#[allow(non_camel_case_types)]
#[derive(Debug, Clone, Copy, PartialEq, Eq, Structural)]
pub struct drm_version {
    /// Major version.
    pub version_major: i32,
    /// Minor version.
    pub version_minor: i32,
    /// Patch level.
    pub version_patchlevel: i32,
    /// Length of the name.
    pub name_len: u64,
    /// Address of the buffer for the name.
    pub name: u64,
    /// Length of the date.
    pub date_len: u64,
    /// Address of the buffer for the date.
    pub date: u64,
    /// Length of the description.
    pub desc_len: u64,
    /// Address of the buffer for the description.
    pub desc: u64,
}

/// Size of the three version numbers.
pub const VERSION_SCALARS: usize = 12;

/// Offset of the length of the name.
pub const VERSION_NAME_LEN: u64 = 16;

/// Offset of the address of the name.
pub const VERSION_NAME: u64 = 24;

/// Offset of the length of the date.
pub const VERSION_DATE_LEN: u64 = 32;

/// Offset of the address of the date.
pub const VERSION_DATE: u64 = 40;

/// Offset of the length of the description.
pub const VERSION_DESC_LEN: u64 = 48;

/// Offset of the address of the description.
pub const VERSION_DESC: u64 = 56;

/// What copying one text does, whose length lies `len` bytes and whose
/// address lies `ptr` bytes into the structure. On the way out the length is
/// copied, and the text if it has a length. On the way back a destination
/// that asked for the length takes it; any other one takes as many bytes of
/// the text as it has room for.
#[verifier::opaque]
pub open spec fn text_copied(
    d: Bytes,
    dst: u64,
    s: Bytes,
    src: u64,
    len: u64,
    ptr: u64,
    direction: Direction,
) -> Bytes {
    if direction == Direction::t2u {
        let d1 = copied(d, at(dst, len as int), s, at(src, len as int), 8);
        if u64_at(s, at(src, len as int)) > 0 {
            payload_copied(
                d1,
                at(dst, ptr as int),
                s,
                at(src, ptr as int),
                size_of_u64(u64_at(s, at(src, len as int))),
            )
        } else {
            d1
        }
    } else if u64_at(d, at(dst, len as int)) == 0 {
        copied(d, at(dst, len as int), s, at(src, len as int), 8)
    } else {
        payload_copied(
            d,
            at(dst, ptr as int),
            s,
            at(src, ptr as int),
            size_of_u64(u64_at(d, at(dst, len as int))),
        )
    }
}

/// Copies one text of the structure at `src` to the structure at `dst`.
pub fn drm_version_copy<D: Memory, S: Memory>(
    dst_mem: &mut D,
    dst: u64,
    src_mem: &S,
    src: u64,
    len: u64,
    ptr: u64,
    direction: Direction,
)
    ensures
        final(dst_mem).bytes() == text_copied(
            old(dst_mem).bytes(),
            dst,
            src_mem.bytes(),
            src,
            len,
            ptr,
            direction,
        ),
{
    reveal(text_copied);
    if direction == Direction::t2u {
        copy(dst_mem, field(dst, len), src_mem, field(src, len), 8);
        let size: u64 = read_u64(src_mem, field(src, len));
        if size > 0 {
            copy_payload(dst_mem, field(dst, ptr), src_mem, field(src, ptr), u64_size(size));
        }
    } else {
        let room: u64 = read_u64(dst_mem, field(dst, len));
        if room == 0 {
            copy(dst_mem, field(dst, len), src_mem, field(src, len), 8);
        } else {
            copy_payload(dst_mem, field(dst, ptr), src_mem, field(src, ptr), u64_size(room));
        }
    }
}

impl drm_version {
    /// Size of the argument itself.
    pub const SIZE: usize = 64;

    /// The structure at `addr` in `m`.
    pub open spec fn at(m: Bytes, addr: u64) -> drm_version {
        drm_version {
            version_major: i32_at(m, addr),
            version_minor: i32_at(m, at(addr, 4)),
            version_patchlevel: i32_at(m, at(addr, 8)),
            name_len: u64_at(m, at(addr, 16)),
            name: u64_at(m, at(addr, 24)),
            date_len: u64_at(m, at(addr, 32)),
            date: u64_at(m, at(addr, 40)),
            desc_len: u64_at(m, at(addr, 48)),
            desc: u64_at(m, at(addr, 56)),
        }
    }

    /// Reads the structure at `addr`.
    pub fn load<M: Memory>(mem: &M, addr: u64) -> (v: drm_version)
        ensures
            v == Self::at(mem.bytes(), addr),
    {
        drm_version {
            version_major: read_i32(mem, addr),
            version_minor: read_i32(mem, field(addr, 4)),
            version_patchlevel: read_i32(mem, field(addr, 8)),
            name_len: read_u64(mem, field(addr, VERSION_NAME_LEN)),
            name: read_u64(mem, field(addr, VERSION_NAME)),
            date_len: read_u64(mem, field(addr, VERSION_DATE_LEN)),
            date: read_u64(mem, field(addr, VERSION_DATE)),
            desc_len: read_u64(mem, field(addr, VERSION_DESC_LEN)),
            desc: read_u64(mem, field(addr, VERSION_DESC)),
        }
    }

    /// What the alloc phase does for the argument at `src` and its copy at
    /// `dst`: the copy gets a buffer for each text, as long as the source
    /// says. The first request that fails ends the phase.
    #[verifier::opaque]
    pub open spec fn allocated(h: ShadowView, dst: u64, t: Bytes, src: u64) -> (
        Result<(), Error>,
        ShadowView,
    ) {
        let (r1, h1) = allocated_into(h, at(dst, 24), size_of_u64(u64_at(t, at(src, 16))));
        if r1 is Err {
            (r1, h1)
        } else {
            let (r2, h2) = allocated_into(h1, at(dst, 40), size_of_u64(u64_at(t, at(src, 32))));
            if r2 is Err {
                (r2, h2)
            } else {
                allocated_into(h2, at(dst, 56), size_of_u64(u64_at(t, at(src, 48))))
            }
        }
    }

    /// Allocates the three buffers of the copy at `dst`.
    pub fn allocate<T: Memory, U: Memory>(host: &mut Shadow<U>, dst: u64, trusted: &T, src: u64) -> (r:
        Result<(), Error>)
        requires
            old(host).wf(),
        ensures
            final(host).wf(),
            (r, final(host)@) == Self::allocated(old(host)@, dst, trusted.bytes(), src),
    {
        reveal(drm_version::allocated);
        let name_len: u64 = read_u64(trusted, field(src, VERSION_NAME_LEN));
        alloc_into(host, field(dst, VERSION_NAME), u64_size(name_len))?;
        let date_len: u64 = read_u64(trusted, field(src, VERSION_DATE_LEN));
        alloc_into(host, field(dst, VERSION_DATE), u64_size(date_len))?;
        let desc_len: u64 = read_u64(trusted, field(src, VERSION_DESC_LEN));
        alloc_into(host, field(dst, VERSION_DESC), u64_size(desc_len))
    }

    /// What a copy from the structure at `src` in `s` to the one at `dst` in
    /// `d` does: the version numbers are copied, then name, date and
    /// description.
    #[verifier::opaque]
    pub open spec fn copy_result(d: Bytes, dst: u64, s: Bytes, src: u64, direction: Direction) -> Bytes {
        let d1 = copied(d, dst, s, src, VERSION_SCALARS as nat);
        let d2 = text_copied(d1, dst, s, src, VERSION_NAME_LEN, VERSION_NAME, direction);
        let d3 = text_copied(d2, dst, s, src, VERSION_DATE_LEN, VERSION_DATE, direction);
        text_copied(d3, dst, s, src, VERSION_DESC_LEN, VERSION_DESC, direction)
    }

    /// Copies the structure at `src` to the one at `dst`, with its texts.
    pub fn copy<D: Memory, S: Memory>(
        dst_mem: &mut D,
        dst: u64,
        src_mem: &S,
        src: u64,
        direction: Direction,
    ) -> (r: Result<(), Error>)
        ensures
            r == Ok::<(), Error>(()),
            final(dst_mem).bytes() == Self::copy_result(
                old(dst_mem).bytes(),
                dst,
                src_mem.bytes(),
                src,
                direction,
            ),
    {
        reveal(drm_version::copy_result);
        copy(dst_mem, dst, src_mem, src, VERSION_SCALARS);
        drm_version_copy(dst_mem, dst, src_mem, src, VERSION_NAME_LEN, VERSION_NAME, direction);
        drm_version_copy(dst_mem, dst, src_mem, src, VERSION_DATE_LEN, VERSION_DATE, direction);
        drm_version_copy(dst_mem, dst, src_mem, src, VERSION_DESC_LEN, VERSION_DESC, direction);
        Ok(())
    }

    /// The untrusted side after the three buffers of the copy at `addr` have
    /// been given back, each with the length that the copy holds.
    #[verifier::opaque]
    pub open spec fn freed(h: ShadowView, addr: u64) -> ShadowView {
        let h1 = freed_from(h, at(addr, 24), size_of_u64(u64_at(h.bytes, at(addr, 16))));
        let h2 = freed_from(h1, at(addr, 40), size_of_u64(u64_at(h.bytes, at(addr, 32))));
        freed_from(h2, at(addr, 56), size_of_u64(u64_at(h.bytes, at(addr, 48))))
    }

    /// Gives back the three buffers of the copy at `addr`.
    pub fn free<U: Memory>(host: &mut Shadow<U>, addr: u64) -> (r: Result<(), Error>)
        requires
            old(host).wf(),
        ensures
            final(host).wf(),
            r == Ok::<(), Error>(()),
            final(host)@ == Self::freed(old(host)@, addr),
    {
        reveal(drm_version::freed);
        let name_len: u64 = read_u64(&host.memory, field(addr, VERSION_NAME_LEN));
        free_from(host, field(addr, VERSION_NAME), u64_size(name_len));
        let date_len: u64 = read_u64(&host.memory, field(addr, VERSION_DATE_LEN));
        free_from(host, field(addr, VERSION_DATE), u64_size(date_len));
        let desc_len: u64 = read_u64(&host.memory, field(addr, VERSION_DESC_LEN));
        free_from(host, field(addr, VERSION_DESC), u64_size(desc_len));
        Ok(())
    }
}

/// The argument that asks for a parameter of the driver: the parameter and the
/// address of a 32-bit number for its value.
#[allow(non_camel_case_types)]
pub struct drm_i915_getparam {}

/// Offset of the address of the value.
pub const GETPARAM_VALUE: u64 = 8;

/// Size of the parameter.
pub const GETPARAM_SCALARS: usize = 4;

/// Size of the value.
pub const GETPARAM_VALUE_SIZE: usize = 4;

impl drm_i915_getparam {
    /// Size of the argument itself.
    pub const SIZE: usize = 16;

    /// What the alloc phase does for the copy at `dst`: it gets room for the
    /// value.
    #[verifier::opaque]
    pub open spec fn allocated(h: ShadowView, dst: u64) -> (Result<(), Error>, ShadowView) {
        allocated_into(h, at(dst, 8), GETPARAM_VALUE_SIZE)
    }

    /// Allocates the value of the copy at `dst`.
    pub fn allocate<T: Memory, U: Memory>(host: &mut Shadow<U>, dst: u64, trusted: &T, src: u64) -> (r:
        Result<(), Error>)
        requires
            old(host).wf(),
        ensures
            final(host).wf(),
            (r, final(host)@) == Self::allocated(old(host)@, dst),
    {
        reveal(drm_i915_getparam::allocated);
        alloc_into(host, field(dst, GETPARAM_VALUE), GETPARAM_VALUE_SIZE)
    }

    /// What a copy from the structure at `src` in `s` to the one at `dst` in
    /// `d` does: the parameter is copied, then the value.
    #[verifier::opaque]
    pub open spec fn copy_result(d: Bytes, dst: u64, s: Bytes, src: u64) -> Bytes {
        payload_copied(
            copied(d, dst, s, src, GETPARAM_SCALARS as nat),
            at(dst, 8),
            s,
            at(src, 8),
            GETPARAM_VALUE_SIZE,
        )
    }

    /// Copies the structure at `src` and its value to the one at `dst`. The
    /// direction makes no difference.
    pub fn copy<D: Memory, S: Memory>(
        dst_mem: &mut D,
        dst: u64,
        src_mem: &S,
        src: u64,
        direction: Direction,
    ) -> (r: Result<(), Error>)
        ensures
            r == Ok::<(), Error>(()),
            final(dst_mem).bytes() == Self::copy_result(
                old(dst_mem).bytes(),
                dst,
                src_mem.bytes(),
                src,
            ),
    {
        reveal(drm_i915_getparam::copy_result);
        copy(dst_mem, dst, src_mem, src, GETPARAM_SCALARS);
        copy_payload(
            dst_mem,
            field(dst, GETPARAM_VALUE),
            src_mem,
            field(src, GETPARAM_VALUE),
            GETPARAM_VALUE_SIZE,
        );
        Ok(())
    }

    /// Gives back the value of the copy at `addr`.
    pub fn free<U: Memory>(host: &mut Shadow<U>, addr: u64) -> (r: Result<(), Error>)
        requires
            old(host).wf(),
        ensures
            final(host).wf(),
            r == Ok::<(), Error>(()),
            final(host)@ == freed_from(old(host)@, at(addr, 8), GETPARAM_VALUE_SIZE),
    {
        free_from(host, field(addr, GETPARAM_VALUE), GETPARAM_VALUE_SIZE);
        Ok(())
    }
}

} // verus!
