//! Creation and destruction of an address space.
//!
//! The argument carries a chain of extensions, each of which names a memory
//! region.

use vstd::prelude::*;
use crate::error::Error;
use crate::i915::Direction;
use crate::i915::chain::{
    CHAIN_LIMIT, PRELIM_I915_USER_EXT_MASK, SizeOf, i915_user_extension, laid_out,
    lemma_chain_copied_twice, plain_chain_allocated, plain_chain_copied, plain_chain_freed,
};
use crate::memory::free;
use crate::shadow::{Shadow, ShadowView, alloc_into, field};
use crate::space::{
    Bytes, Memory, at, copied, copy, read_u32, read_u64, same_bytes, u32_at, u64_at, with_u64,
    write_u64,
};

verus! {

/// The argument that creates or destroys an address space: the address of the
/// first extension, `flags` and `vm_id`.
#[allow(non_camel_case_types)]
pub struct drm_i915_gem_vm_control {}

/// Offset of the address of the first extension.
pub const VM_EXTENSIONS: u64 = 0;

/// Offset of the scalar fields `flags` and `vm_id`.
pub const VM_FLAGS: u64 = 8;

/// Size of the scalar fields `flags` and `vm_id`.
pub const VM_SCALARS: usize = 8;

/// The name of the extension that names a memory region.
pub const VM_CONTROL_EXT_REGION: u32 = 0;

/// Size of the extension that names a memory region.
pub const VM_REGION_EXT_SIZE: usize = 40;

impl drm_i915_gem_vm_control {
    /// Size of the argument itself.
    pub const SIZE: usize = 16;

    /// The size of the extension with the name `name`, for a name that has a
    /// layout.
    pub open spec fn size_of_node(name: u32) -> Result<usize, Error> {
        if name == VM_CONTROL_EXT_REGION {
            Ok(VM_REGION_EXT_SIZE)
        } else {
            Err(Error::UnsupportedName)
        }
    }

    /// The size of the extension with the name `name`.
    pub fn sizeof(name: u32) -> (r: Result<usize, Error>)
        ensures
            r == Self::size_of_node(name),
    {
        match name {
            0 => Ok(VM_REGION_EXT_SIZE),
            _ => Err(Error::UnsupportedName),
        }
    }

    /// What the alloc phase does from the extension at `src` on, where the
    /// pointer at `slot` is to hold the address of its copy: every extension
    /// gets a copy of the size that its name gives, linked to the one before.
    pub open spec fn chain_allocated(h: ShadowView, slot: u64, t: Bytes, src: u64, fuel: nat) -> (
        Result<(), Error>,
        ShadowView,
    ) {
        plain_chain_allocated(Self::sizer(), h, slot, t, src, fuel)
    }

    /// What the alloc phase does for the argument at `src` and its copy at
    /// `dst`: the copy gets an empty chain, then a copy of every extension of
    /// the source.
    #[verifier::opaque]
    pub open spec fn allocated(h: ShadowView, dst: u64, t: Bytes, src: u64) -> (
        Result<(), Error>,
        ShadowView,
    ) {
        Self::chain_allocated(
            ShadowView { arenas: h.arenas, bytes: with_u64(h.bytes, dst, 0) },
            dst,
            t,
            u64_at(t, src),
            CHAIN_LIMIT as nat,
        )
    }

    /// Builds the chain of the copy at `dst` after the chain of the argument
    /// at `src`.
    pub fn allocate<T: Memory, U: Memory>(host: &mut Shadow<U>, dst: u64, trusted: &T, src: u64) -> (r:
        Result<(), Error>)
        requires
            old(host).wf(),
        ensures
            final(host).wf(),
            (r, final(host)@) == Self::allocated(old(host)@, dst, trusted.bytes(), src),
    {
        reveal(drm_i915_gem_vm_control::allocated);
        write_u64(&mut host.memory, field(dst, VM_EXTENSIONS), 0);
        let mut ext_src: u64 = read_u64(trusted, field(src, VM_EXTENSIONS));
        let mut slot: u64 = field(dst, VM_EXTENSIONS);
        let mut steps: u64 = 0;
        while ext_src != 0
            invariant
                host.wf(),
                Self::chain_allocated(
                    host@,
                    slot,
                    trusted.bytes(),
                    ext_src,
                    (CHAIN_LIMIT - steps) as nat,
                ) == Self::allocated(old(host)@, dst, trusted.bytes(), src),
            decreases CHAIN_LIMIT - steps,
        {
            if steps == CHAIN_LIMIT {
                return Err(Error::EndlessChain);
            }
            let name: u32 = read_u32(trusted, field(ext_src, 8)) & PRELIM_I915_USER_EXT_MASK;
            let size: usize = Self::sizeof(name)?;
            alloc_into(host, slot, size)?;
            let node: u64 = read_u64(&host.memory, slot);
            i915_user_extension::init(&mut host.memory, node);
            ext_src = read_u64(trusted, ext_src);
            slot = read_u64(&host.memory, slot);
            steps = steps + 1;
        }
        Ok(())
    }

    /// The size of the extension at `addr` in `m`, as its name gives it.
    pub open spec fn node_size(m: Bytes, addr: u64) -> Result<usize, Error> {
        Self::size_of_node(u32_at(m, at(addr, 8)) & PRELIM_I915_USER_EXT_MASK)
    }

    /// How the size of an extension of this chain is read.
    pub open spec fn sizer() -> SizeOf {
        |m: Bytes, addr: u64| Self::node_size(m, addr)
    }

    /// What a copy does from the extension at `src` on: every extension is
    /// copied whole, in the size that its name gives, to the extension at the
    /// same place of the chain of the destination, which keeps its place in
    /// its own chain.
    pub open spec fn chain_copied(d: Bytes, slot: u64, s: Bytes, src: u64, fuel: nat) -> (
        Result<(), Error>,
        Bytes,
    ) {
        plain_chain_copied(Self::sizer(), d, slot, s, src, fuel)
    }

    /// Walking the chain of an address space that was already copied copies
    /// it to the same image.
    pub proof fn lemma_chain_copied_twice(d: Bytes, slot: u64, s: Bytes, src: u64, fuel: nat)
        requires
            laid_out(Self::sizer(), d, slot, s, src, fuel),
        ensures
            ({
                let (r, once) = Self::chain_copied(d, slot, s, src, fuel);
                let (again, twice) = Self::chain_copied(once, slot, s, src, fuel);
                again == r && same_bytes(twice, once)
            }),
    {
        lemma_chain_copied_twice(Self::sizer(), d, slot, s, src, fuel);
    }

    /// What a copy from the structure at `src` in `s` to the one at `dst` in
    /// `d` does: the scalar fields are copied, then the chain.
    #[verifier::opaque]
    pub open spec fn copy_result(d: Bytes, dst: u64, s: Bytes, src: u64) -> (Result<(), Error>, Bytes) {
        Self::chain_copied(
            copied(d, at(dst, 8), s, at(src, 8), VM_SCALARS as nat),
            dst,
            s,
            u64_at(s, src),
            CHAIN_LIMIT as nat,
        )
    }

    /// Copies the structure at `src` to the one at `dst`, extension by
    /// extension. The direction makes no difference.
    pub fn copy<D: Memory, S: Memory>(
        dst_mem: &mut D,
        dst: u64,
        src_mem: &S,
        src: u64,
        direction: Direction,
    ) -> (r: Result<(), Error>)
        ensures
            (r, final(dst_mem).bytes()) == Self::copy_result(
                old(dst_mem).bytes(),
                dst,
                src_mem.bytes(),
                src,
            ),
    {
        reveal(drm_i915_gem_vm_control::copy_result);
        copy(dst_mem, field(dst, VM_FLAGS), src_mem, field(src, VM_FLAGS), VM_SCALARS);
        let mut ext_src: u64 = read_u64(src_mem, field(src, VM_EXTENSIONS));
        let mut slot: u64 = field(dst, VM_EXTENSIONS);
        let mut steps: u64 = 0;
        while ext_src != 0
            invariant
                Self::chain_copied(
                    dst_mem.bytes(),
                    slot,
                    src_mem.bytes(),
                    ext_src,
                    (CHAIN_LIMIT - steps) as nat,
                ) == Self::copy_result(old(dst_mem).bytes(), dst, src_mem.bytes(), src),
            decreases CHAIN_LIMIT - steps,
        {
            if steps == CHAIN_LIMIT {
                return Err(Error::EndlessChain);
            }
            let node: u64 = read_u64(dst_mem, slot);
            let name: u32 = read_u32(src_mem, field(ext_src, 8)) & PRELIM_I915_USER_EXT_MASK;
            let next: u64 = read_u64(dst_mem, node);
            let size: usize = Self::sizeof(name)?;
            copy(dst_mem, node, src_mem, ext_src, size);
            write_u64(dst_mem, node, next);
            ext_src = read_u64(src_mem, ext_src);
            slot = read_u64(dst_mem, slot);
            steps = steps + 1;
        }
        Ok(())
    }

    /// What the free phase does from the extension at `ext` on: every
    /// extension is given back, in the size that its name gives, until the
    /// chain ends or a name has no layout.
    pub open spec fn chain_freed(h: ShadowView, ext: u64, fuel: nat) -> (
        Result<(), Error>,
        ShadowView,
    ) {
        plain_chain_freed(Self::sizer(), h, ext, fuel)
    }

    /// What the free phase does for the copy at `addr`.
    #[verifier::opaque]
    pub open spec fn freed(h: ShadowView, addr: u64) -> (Result<(), Error>, ShadowView) {
        Self::chain_freed(h, u64_at(h.bytes, addr), CHAIN_LIMIT as nat)
    }

    /// Gives back the chain of the copy at `addr`.
    pub fn free<U: Memory>(host: &mut Shadow<U>, addr: u64) -> (r: Result<(), Error>)
        requires
            old(host).wf(),
        ensures
            final(host).wf(),
            (r, final(host)@) == Self::freed(old(host)@, addr),
    {
        reveal(drm_i915_gem_vm_control::freed);
        let mut ext: u64 = read_u64(&host.memory, field(addr, VM_EXTENSIONS));
        let mut steps: u64 = 0;
        while ext != 0
            invariant
                host.wf(),
                Self::chain_freed(host@, ext, (CHAIN_LIMIT - steps) as nat) == Self::freed(
                    old(host)@,
                    addr,
                ),
            decreases CHAIN_LIMIT - steps,
        {
            if steps == CHAIN_LIMIT {
                return Err(Error::EndlessChain);
            }
            let name: u32 = read_u32(&host.memory, field(ext, 8)) & PRELIM_I915_USER_EXT_MASK;
            let size: usize = Self::sizeof(name)?;
            let next: u64 = read_u64(&host.memory, ext);
            let _ = free(&mut host.manager, ext, size);
            ext = next;
            steps = steps + 1;
        }
        Ok(())
    }
}

} // verus!
