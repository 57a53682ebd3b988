//! Creation of a buffer object with extensions.
//!
//! The argument carries a chain of extensions. An extension that sets a
//! parameter points to an array of memory regions, four bytes each, whose
//! length is the `size` of the parameter.

use vstd::prelude::*;
use crate::error::Error;
use crate::i915::Direction;
use crate::i915::chain::{
    CHAIN_LIMIT, PRELIM_I915_USER_EXT_MASK, i915_user_extension, whole_copied,
};
use crate::memory::{free, released};
use crate::shadow::{
    Shadow, ShadowView, alloc_into, allocated_into, array_bytes, array_size, copy_payload, field,
    free_from, freed_from, payload_copied,
};
use crate::space::{
    Bytes, Memory, at, copied, copy, read_u32, read_u64, u32_at, u64_at, with_u64, write_u64,
};

verus! {

/// Size of one memory region in the array of a parameter.
pub const MEMORY_CLASS_INSTANCE_SIZE: usize = 4;

/// The extension that sets a parameter of a buffer object: the header, then
/// `handle`, `size`, `param` and the address `data` of the array.
#[allow(non_camel_case_types)]
pub struct prelim_drm_i915_gem_create_ext_setparam {}

/// Offset of the parameter in the extension.
pub const SETPARAM_PARAM: u64 = 32;

/// Offset of the length of the array.
pub const SETPARAM_SIZE: u64 = 36;

/// Offset of the address of the array.
pub const SETPARAM_DATA: u64 = 48;

/// Size of the scalar fields of the parameter: `handle`, `size`, `param`.
pub const SETPARAM_SCALARS: usize = 16;

impl prelim_drm_i915_gem_create_ext_setparam {
    /// Size of the extension.
    pub const SIZE: usize = 56;

    /// What allocating the array of the copy at `dst` does, for the extension
    /// at `src` in the trusted memory `t`.
    #[verifier::opaque]
    pub open spec fn allocated(h: ShadowView, dst: u64, t: Bytes, src: u64) -> (
        Result<(), Error>,
        ShadowView,
    ) {
        match array_size(MEMORY_CLASS_INSTANCE_SIZE, u32_at(t, at(src, 36)) as usize) {
            Ok(size) => allocated_into(h, at(dst, 48), size),
            Err(e) => (Err(e), h),
        }
    }

    /// Allocates the array of the copy at `dst`, as long as that of the
    /// extension at `src`.
    pub fn allocate<T: Memory, U: Memory>(host: &mut Shadow<U>, dst: u64, trusted: &T, src: u64) -> (r:
        Result<(), Error>)
        requires
            old(host).wf(),
        ensures
            final(host).wf(),
            (r, final(host)@) == Self::allocated(old(host)@, dst, trusted.bytes(), src),
    {
        reveal(prelim_drm_i915_gem_create_ext_setparam::allocated);
        let count: u32 = read_u32(trusted, field(src, SETPARAM_SIZE));
        let size: usize = array_bytes(MEMORY_CLASS_INSTANCE_SIZE, count as usize)?;
        alloc_into(host, field(dst, SETPARAM_DATA), size)
    }

    /// What copying the parameter does: its scalar fields are copied, then,
    /// where the size of the array can be computed, the array.
    #[verifier::opaque]
    pub open spec fn copy_result(d: Bytes, dst: u64, s: Bytes, src: u64) -> (
        Result<(), Error>,
        Bytes,
    ) {
        let d1 = copied(d, at(dst, 32), s, at(src, 32), SETPARAM_SCALARS as nat);
        match array_size(MEMORY_CLASS_INSTANCE_SIZE, u32_at(s, at(src, 36)) as usize) {
            Ok(size) => (Ok(()), payload_copied(d1, at(dst, 48), s, at(src, 48), size)),
            Err(e) => (Err(e), d1),
        }
    }

    /// Copies the parameter of the extension at `src` and its array to the
    /// extension at `dst`.
    pub fn copy<D: Memory, S: Memory>(dst_mem: &mut D, dst: u64, src_mem: &S, src: u64) -> (r:
        Result<(), Error>)
        ensures
            (r, final(dst_mem).bytes()) == Self::copy_result(
                old(dst_mem).bytes(),
                dst,
                src_mem.bytes(),
                src,
            ),
    {
        reveal(prelim_drm_i915_gem_create_ext_setparam::copy_result);
        copy(
            dst_mem,
            field(dst, SETPARAM_PARAM),
            src_mem,
            field(src, SETPARAM_PARAM),
            SETPARAM_SCALARS,
        );
        let count: u32 = read_u32(src_mem, field(src, SETPARAM_SIZE));
        let size: usize = array_bytes(MEMORY_CLASS_INSTANCE_SIZE, count as usize)?;
        copy_payload(dst_mem, field(dst, SETPARAM_DATA), src_mem, field(src, SETPARAM_DATA), size);
        Ok(())
    }

    /// What giving back the array of the copy at `addr` does.
    #[verifier::opaque]
    pub open spec fn freed(h: ShadowView, addr: u64) -> (Result<(), Error>, ShadowView) {
        match array_size(MEMORY_CLASS_INSTANCE_SIZE, u32_at(h.bytes, at(addr, 36)) as usize) {
            Ok(size) => (Ok(()), freed_from(h, at(addr, 48), size)),
            Err(e) => (Err(e), h),
        }
    }

    /// Gives back the array of the copy at `addr`, with the size that the copy
    /// holds.
    pub fn free<U: Memory>(host: &mut Shadow<U>, addr: u64) -> (r: Result<(), Error>)
        requires
            old(host).wf(),
        ensures
            final(host).wf(),
            (r, final(host)@) == Self::freed(old(host)@, addr),
    {
        reveal(prelim_drm_i915_gem_create_ext_setparam::freed);
        let count: u32 = read_u32(&host.memory, field(addr, SETPARAM_SIZE));
        let size: usize = array_bytes(MEMORY_CLASS_INSTANCE_SIZE, count as usize)?;
        free_from(host, field(addr, SETPARAM_DATA), size);
        Ok(())
    }
}

/// The argument that creates a buffer object: `size`, `handle`, `pad` and the
/// address of the first extension.
#[allow(non_camel_case_types)]
pub struct prelim_drm_i915_gem_create_ext {}

/// Offset of the address of the first extension.
pub const CREATE_EXT_EXTENSIONS: u64 = 16;

/// Size of the scalar fields `size`, `handle`, `pad`.
pub const CREATE_EXT_SCALARS: usize = 16;

/// The name of the extension that sets a parameter.
pub const CREATE_EXT_SETPARAM: u32 = 1;

/// The name of the extension that makes the object private to an address
/// space.
pub const CREATE_EXT_VM_PRIVATE: u32 = 2;

/// The name of the extension that protects the content of the object.
pub const CREATE_EXT_PROTECTED_CONTENT: u32 = 3;

/// Size of the extension that makes the object private to an address space.
pub const CREATE_EXT_VM_PRIVATE_SIZE: usize = 40;

/// Size of the extension that protects the content of the object.
pub const CREATE_EXT_PROTECTED_CONTENT_SIZE: usize = 40;

impl prelim_drm_i915_gem_create_ext {
    /// Size of the argument itself.
    pub const SIZE: usize = 24;

    /// The size of the extension with the name `name`, for a name that has a
    /// layout.
    pub open spec fn size_of_node(name: u32) -> Result<usize, Error> {
        if name == CREATE_EXT_SETPARAM {
            Ok(prelim_drm_i915_gem_create_ext_setparam::SIZE)
        } else if name == CREATE_EXT_VM_PRIVATE {
            Ok(CREATE_EXT_VM_PRIVATE_SIZE)
        } else if name == CREATE_EXT_PROTECTED_CONTENT {
            Ok(CREATE_EXT_PROTECTED_CONTENT_SIZE)
        } else {
            Err(Error::IllegalName(name))
        }
    }

    /// The size of the extension with the name `name`.
    pub fn sizeof(name: u32) -> (r: Result<usize, Error>)
        ensures
            r == Self::size_of_node(name),
    {
        match name {
            1 => Ok(prelim_drm_i915_gem_create_ext_setparam::SIZE),
            2 => Ok(CREATE_EXT_VM_PRIVATE_SIZE),
            3 => Ok(CREATE_EXT_PROTECTED_CONTENT_SIZE),
            _ => Err(Error::IllegalName(name)),
        }
    }

    /// What the alloc phase does for one extension: the pointer at `slot` gets
    /// a new extension of the size that the name of the source gives, which
    /// ends the chain; an extension that sets a parameter gets its array.
    pub open spec fn node_allocated(h: ShadowView, slot: u64, t: Bytes, src: u64) -> (
        Result<(), Error>,
        ShadowView,
    ) {
        let name = u32_at(t, at(src, 8)) & PRELIM_I915_USER_EXT_MASK;
        match Self::size_of_node(name) {
            Err(e) => (Err(e), h),
            Ok(size) => {
                let (r1, h1) = allocated_into(h, slot, size);
                if r1 is Err {
                    (r1, h1)
                } else {
                    let node = u64_at(h1.bytes, slot);
                    let h2 = ShadowView { arenas: h1.arenas, bytes: with_u64(h1.bytes, node, 0) };
                    if name == CREATE_EXT_SETPARAM {
                        prelim_drm_i915_gem_create_ext_setparam::allocated(h2, node, t, src)
                    } else {
                        (Ok(()), h2)
                    }
                }
            },
        }
    }

    /// Allocates the copy of the extension at `src` and writes its address to
    /// the pointer at `slot`.
    pub fn node_allocate<T: Memory, U: Memory>(
        host: &mut Shadow<U>,
        slot: u64,
        trusted: &T,
        src: u64,
    ) -> (r: Result<(), Error>)
        requires
            old(host).wf(),
        ensures
            final(host).wf(),
            (r, final(host)@) == Self::node_allocated(old(host)@, slot, trusted.bytes(), src),
    {
        let name: u32 = read_u32(trusted, field(src, 8)) & PRELIM_I915_USER_EXT_MASK;
        let size: usize = Self::sizeof(name)?;
        alloc_into(host, slot, size)?;
        let node: u64 = read_u64(&host.memory, slot);
        i915_user_extension::init(&mut host.memory, node);
        if name == CREATE_EXT_SETPARAM {
            prelim_drm_i915_gem_create_ext_setparam::allocate(host, node, trusted, src)?;
        }
        Ok(())
    }

    /// What the alloc phase does from the extension at `src` on, where the
    /// pointer at `slot` is to hold the address of its copy: one extension
    /// after the other gets its copy, each linked to the one before, until the
    /// chain of the source ends or a step fails.
    pub open spec fn chain_allocated(h: ShadowView, slot: u64, t: Bytes, src: u64, fuel: nat) -> (
        Result<(), Error>,
        ShadowView,
    )
        decreases fuel,
    {
        if src == 0 {
            (Ok(()), h)
        } else if fuel == 0 {
            (Err(Error::EndlessChain), h)
        } else {
            let (r, h1) = Self::node_allocated(h, slot, t, src);
            if r is Err {
                (r, h1)
            } else {
                Self::chain_allocated(
                    h1,
                    u64_at(h1.bytes, slot),
                    t,
                    u64_at(t, src),
                    (fuel - 1) as nat,
                )
            }
        }
    }

    /// What the alloc phase does for the argument at `src` and its copy at
    /// `dst`: the copy gets an empty chain, then a copy of every extension of
    /// the source.
    #[verifier::opaque]
    pub open spec fn allocated(h: ShadowView, dst: u64, t: Bytes, src: u64) -> (
        Result<(), Error>,
        ShadowView,
    ) {
        Self::chain_allocated(
            ShadowView { arenas: h.arenas, bytes: with_u64(h.bytes, at(dst, 16), 0) },
            at(dst, 16),
            t,
            u64_at(t, at(src, 16)),
            CHAIN_LIMIT as nat,
        )
    }

    /// Builds the chain of the copy at `dst` after the chain of the argument
    /// at `src`.
    pub fn allocate<T: Memory, U: Memory>(host: &mut Shadow<U>, dst: u64, trusted: &T, src: u64) -> (r:
        Result<(), Error>)
        requires
            old(host).wf(),
        ensures
            final(host).wf(),
            (r, final(host)@) == Self::allocated(old(host)@, dst, trusted.bytes(), src),
    {
        reveal(prelim_drm_i915_gem_create_ext::allocated);
        write_u64(&mut host.memory, field(dst, CREATE_EXT_EXTENSIONS), 0);
        let mut ext_src: u64 = read_u64(trusted, field(src, CREATE_EXT_EXTENSIONS));
        let mut slot: u64 = field(dst, CREATE_EXT_EXTENSIONS);
        let mut steps: u64 = 0;
        while ext_src != 0
            invariant
                host.wf(),
                Self::chain_allocated(
                    host@,
                    slot,
                    trusted.bytes(),
                    ext_src,
                    (CHAIN_LIMIT - steps) as nat,
                ) == Self::allocated(old(host)@, dst, trusted.bytes(), src),
            decreases CHAIN_LIMIT - steps,
        {
            if steps == CHAIN_LIMIT {
                return Err(Error::EndlessChain);
            }
            Self::node_allocate(host, slot, trusted, ext_src)?;
            ext_src = read_u64(trusted, ext_src);
            slot = read_u64(&host.memory, slot);
            steps = steps + 1;
        }
        Ok(())
    }

    /// What a copy does for one extension, where the pointer at `slot` holds
    /// the address of the destination: an extension that sets a parameter has
    /// its header, its parameter and its array copied; any other one is copied
    /// whole, in the size that its name gives. The destination keeps its place
    /// in its own chain.
    pub open spec fn node_copied(d: Bytes, slot: u64, s: Bytes, src: u64) -> (
        Result<(), Error>,
        Bytes,
    ) {
        let node = u64_at(d, slot);
        let name = u32_at(s, at(src, 8)) & PRELIM_I915_USER_EXT_MASK;
        if name == CREATE_EXT_SETPARAM {
            prelim_drm_i915_gem_create_ext_setparam::copy_result(
                i915_user_extension::header_copied(d, node, s, src),
                node,
                s,
                src,
            )
        } else {
            match Self::size_of_node(name) {
                Ok(size) => (
                    Ok(()),
                    whole_copied(d, node, s, src, size as nat),
                ),
                Err(e) => (Err(e), d),
            }
        }
    }

    /// Copies the extension at `src` to the extension to which the pointer at
    /// `slot` points.
    pub fn node_copy<D: Memory, S: Memory>(dst_mem: &mut D, slot: u64, src_mem: &S, src: u64) -> (r:
        Result<(), Error>)
        ensures
            (r, final(dst_mem).bytes()) == Self::node_copied(
                old(dst_mem).bytes(),
                slot,
                src_mem.bytes(),
                src,
            ),
    {
        let node: u64 = read_u64(dst_mem, slot);
        let name: u32 = read_u32(src_mem, field(src, 8)) & PRELIM_I915_USER_EXT_MASK;
        if name == CREATE_EXT_SETPARAM {
            i915_user_extension::copy(dst_mem, node, src_mem, src);
            prelim_drm_i915_gem_create_ext_setparam::copy(dst_mem, node, src_mem, src)
        } else {
            let next: u64 = read_u64(dst_mem, node);
            let size: usize = Self::sizeof(name)?;
            copy(dst_mem, node, src_mem, src, size);
            write_u64(dst_mem, node, next);
            Ok(())
        }
    }

    /// What a copy does from the extension at `src` on: one extension after
    /// the other is copied to the extension at the same place of the chain of
    /// the destination, until the chain of the source ends or a step fails.
    pub open spec fn chain_copied(d: Bytes, slot: u64, s: Bytes, src: u64, fuel: nat) -> (
        Result<(), Error>,
        Bytes,
    )
        decreases fuel,
    {
        if src == 0 {
            (Ok(()), d)
        } else if fuel == 0 {
            (Err(Error::EndlessChain), d)
        } else {
            let (r, d1) = Self::node_copied(d, slot, s, src);
            if r is Err {
                (r, d1)
            } else {
                Self::chain_copied(d1, u64_at(d1, slot), s, u64_at(s, src), (fuel - 1) as nat)
            }
        }
    }

    /// What a copy from the structure at `src` in `s` to the one at `dst` in
    /// `d` does: the scalar fields are copied, then the chain.
    #[verifier::opaque]
    pub open spec fn copy_result(d: Bytes, dst: u64, s: Bytes, src: u64) -> (Result<(), Error>, Bytes) {
        Self::chain_copied(
            copied(d, dst, s, src, CREATE_EXT_SCALARS as nat),
            at(dst, 16),
            s,
            u64_at(s, at(src, 16)),
            CHAIN_LIMIT as nat,
        )
    }

    /// Copies the structure at `src` to the one at `dst`, extension by
    /// extension. The direction makes no difference.
    pub fn copy<D: Memory, S: Memory>(
        dst_mem: &mut D,
        dst: u64,
        src_mem: &S,
        src: u64,
        direction: Direction,
    ) -> (r: Result<(), Error>)
        ensures
            (r, final(dst_mem).bytes()) == Self::copy_result(
                old(dst_mem).bytes(),
                dst,
                src_mem.bytes(),
                src,
            ),
    {
        reveal(prelim_drm_i915_gem_create_ext::copy_result);
        copy(dst_mem, dst, src_mem, src, CREATE_EXT_SCALARS);
        let mut ext_src: u64 = read_u64(src_mem, field(src, CREATE_EXT_EXTENSIONS));
        let mut slot: u64 = field(dst, CREATE_EXT_EXTENSIONS);
        let mut steps: u64 = 0;
        while ext_src != 0
            invariant
                Self::chain_copied(
                    dst_mem.bytes(),
                    slot,
                    src_mem.bytes(),
                    ext_src,
                    (CHAIN_LIMIT - steps) as nat,
                ) == Self::copy_result(old(dst_mem).bytes(), dst, src_mem.bytes(), src),
            decreases CHAIN_LIMIT - steps,
        {
            if steps == CHAIN_LIMIT {
                return Err(Error::EndlessChain);
            }
            Self::node_copy(dst_mem, slot, src_mem, ext_src)?;
            ext_src = read_u64(src_mem, ext_src);
            slot = read_u64(dst_mem, slot);
            steps = steps + 1;
        }
        Ok(())
    }

    /// What the free phase does from the extension at `ext` on: the array of
    /// an extension that sets a parameter is given back, then the extension
    /// itself, in the size that its name gives, and so on along the chain,
    /// until it ends or a step fails.
    pub open spec fn chain_freed(h: ShadowView, ext: u64, fuel: nat) -> (Result<(), Error>, ShadowView)
        decreases fuel,
    {
        if ext == 0 {
            (Ok(()), h)
        } else if fuel == 0 {
            (Err(Error::EndlessChain), h)
        } else {
            let name = u32_at(h.bytes, at(ext, 8)) & PRELIM_I915_USER_EXT_MASK;
            let (r1, h1) = if name == CREATE_EXT_SETPARAM {
                prelim_drm_i915_gem_create_ext_setparam::freed(h, ext)
            } else {
                (Ok(()), h)
            };
            if r1 is Err {
                (r1, h1)
            } else {
                match Self::size_of_node(name) {
                    Err(e) => (Err(e), h1),
                    Ok(size) => Self::chain_freed(
                        ShadowView { arenas: released(h1.arenas, ext, size), bytes: h1.bytes },
                        u64_at(h1.bytes, ext),
                        (fuel - 1) as nat,
                    ),
                }
            }
        }
    }

    /// What the free phase does for the copy at `addr`.
    #[verifier::opaque]
    pub open spec fn freed(h: ShadowView, addr: u64) -> (Result<(), Error>, ShadowView) {
        Self::chain_freed(h, u64_at(h.bytes, at(addr, 16)), CHAIN_LIMIT as nat)
    }

    /// Gives back the chain of the copy at `addr`.
    pub fn free<U: Memory>(host: &mut Shadow<U>, addr: u64) -> (r: Result<(), Error>)
        requires
            old(host).wf(),
        ensures
            final(host).wf(),
            (r, final(host)@) == Self::freed(old(host)@, addr),
    {
        reveal(prelim_drm_i915_gem_create_ext::freed);
        let mut ext: u64 = read_u64(&host.memory, field(addr, CREATE_EXT_EXTENSIONS));
        let mut steps: u64 = 0;
        while ext != 0
            invariant
                host.wf(),
                Self::chain_freed(host@, ext, (CHAIN_LIMIT - steps) as nat) == Self::freed(
                    old(host)@,
                    addr,
                ),
            decreases CHAIN_LIMIT - steps,
        {
            if steps == CHAIN_LIMIT {
                return Err(Error::EndlessChain);
            }
            let name: u32 = read_u32(&host.memory, field(ext, 8)) & PRELIM_I915_USER_EXT_MASK;
            if name == CREATE_EXT_SETPARAM {
                prelim_drm_i915_gem_create_ext_setparam::free(host, ext)?;
            }
            let next: u64 = read_u64(&host.memory, ext);
            let size: usize = Self::sizeof(name)?;
            let _ = free(&mut host.manager, ext, size);
            ext = next;
            steps = steps + 1;
        }
        Ok(())
    }
}

} // verus!
