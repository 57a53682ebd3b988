//! Contexts and their parameters.
//!
//! A context parameter carries its value inline, where its `size` is zero, or
//! points to a buffer of `size` bytes. A context is created with a chain of
//! extensions that set parameters. The parameter that configures the engines
//! of a context points to a nested parameter, whose value begins with the
//! address of a chain of engine extensions; these carry arrays of engines
//! behind them, so their size depends on what they hold.

use vstd::prelude::*;
use crate::error::Error;
use crate::i915::Direction;
use crate::i915::chain::{
    CHAIN_LIMIT, PRELIM_I915_USER_EXT_MASK, SizeOf, i915_user_extension, laid_out,
    lemma_chain_copied_twice, plain_chain_allocated, plain_chain_copied, plain_chain_freed,
};
use crate::memory::{PTR_NULL, free, owned, owns, released};
use crate::shadow::{
    Shadow, ShadowView, alloc_into, allocated_into, array_bytes, array_size, copy_payload, field,
    free_from, freed_from, payload_copied,
};
use crate::space::{
    Bytes, Memory, at, copied, copy, read_u16, read_u32, read_u64, same_bytes, u16_at, u32_at,
    u64_at, with_u64, write_u64,
};

verus! {

/// The parameter that configures the engines of a context.
pub const I915_CONTEXT_PARAM_ENGINES: u64 = 0xa;

/// Size of one engine in the array behind an engine extension.
pub const ENGINE_CLASS_INSTANCE_SIZE: usize = 4;

/// The name of the engine extension that balances load.
pub const ENGINES_EXT_LOAD_BALANCE: u32 = 0;

/// The name of the engine extension that bonds engines.
pub const ENGINES_EXT_BOND: u32 = 1;

/// The name of the engine extension that submits in parallel.
pub const ENGINES_EXT_PARALLEL_SUBMIT: u32 = 2;

/// The second name of the engine extension that submits in parallel.
pub const ENGINES_EXT_PARALLEL2_SUBMIT: u32 = 3;

/// Size of the load-balance extension without its engines.
pub const LOAD_BALANCE_SIZE: usize = 48;

/// Offset of the number of engines of a load-balance extension.
pub const LOAD_BALANCE_NUM_SIBLINGS: u64 = 34;

/// Size of the bond extension without its engines.
pub const BOND_SIZE: usize = 80;

/// Offset of the number of engines of a bond extension.
pub const BOND_NUM_BONDS: u64 = 38;

/// Size of the parallel-submit extension without its engines.
pub const PARALLEL_SUBMIT_SIZE: usize = 72;

/// Offset of the width of a parallel-submit extension.
pub const PARALLEL_SUBMIT_WIDTH: u64 = 34;

/// Offset of the number of siblings of a parallel-submit extension.
pub const PARALLEL_SUBMIT_NUM_SIBLINGS: u64 = 36;

/// The sum of the size of a structure and that of the array behind it, where
/// it fits in `usize`.
pub open spec fn with_array(base: usize, array: Result<usize, Error>) -> Result<usize, Error> {
    match array {
        Ok(bytes) => if base + bytes <= usize::MAX {
            Ok((base + bytes) as usize)
        } else {
            Err(Error::MulOverflow)
        },
        Err(e) => Err(e),
    }
}

/// The size of a structure of `base` bytes with an array of `bytes` bytes
/// behind it.
fn add_array(base: usize, bytes: usize) -> (r: Result<usize, Error>)
    ensures
        r == with_array(base, Ok(bytes)),
{
    match base.checked_add(bytes) {
        Some(size) => Ok(size),
        None => Err(Error::MulOverflow),
    }
}

/// The value of the parameter that configures engines: the address of a chain
/// of engine extensions, and the engines behind it.
#[allow(non_camel_case_types)]
pub struct i915_context_param_engines {}

impl i915_context_param_engines {
    /// The size of the engine extension at `addr` in `m`: that of its layout
    /// and of the engines behind it. A load-balance extension has
    /// `num_siblings` engines, a bond `num_bonds`, and a parallel submission
    /// `num_siblings` times `width`.
    pub open spec fn size_of_node(m: Bytes, addr: u64) -> Result<usize, Error> {
        let name = u32_at(m, at(addr, 8)) & PRELIM_I915_USER_EXT_MASK;
        if name == ENGINES_EXT_LOAD_BALANCE {
            with_array(
                LOAD_BALANCE_SIZE,
                array_size(ENGINE_CLASS_INSTANCE_SIZE, u16_at(m, at(addr, 34)) as usize),
            )
        } else if name == ENGINES_EXT_BOND {
            with_array(
                BOND_SIZE,
                array_size(ENGINE_CLASS_INSTANCE_SIZE, u16_at(m, at(addr, 38)) as usize),
            )
        } else if name == ENGINES_EXT_PARALLEL_SUBMIT || name == ENGINES_EXT_PARALLEL2_SUBMIT {
            with_array(
                PARALLEL_SUBMIT_SIZE,
                match array_size(ENGINE_CLASS_INSTANCE_SIZE, u16_at(m, at(addr, 36)) as usize) {
                    Ok(row) => array_size(row, u16_at(m, at(addr, 34)) as usize),
                    Err(e) => Err(e),
                },
            )
        } else {
            Err(Error::UnsupportedName)
        }
    }

    /// The size of the engine extension at `addr`.
    pub fn sizeof<M: Memory>(mem: &M, addr: u64) -> (r: Result<usize, Error>)
        ensures
            r == Self::size_of_node(mem.bytes(), addr),
    {
        let name: u32 = read_u32(mem, field(addr, 8)) & PRELIM_I915_USER_EXT_MASK;
        match name {
            0 => {
                let num_siblings: u16 = read_u16(mem, field(addr, LOAD_BALANCE_NUM_SIBLINGS));
                let engines: usize = array_bytes(ENGINE_CLASS_INSTANCE_SIZE, num_siblings as usize)?;
                add_array(LOAD_BALANCE_SIZE, engines)
            },
            1 => {
                let num_bonds: u16 = read_u16(mem, field(addr, BOND_NUM_BONDS));
                let engines: usize = array_bytes(ENGINE_CLASS_INSTANCE_SIZE, num_bonds as usize)?;
                add_array(BOND_SIZE, engines)
            },
            2 | 3 => {
                let num_siblings: u16 = read_u16(mem, field(addr, PARALLEL_SUBMIT_NUM_SIBLINGS));
                let width: u16 = read_u16(mem, field(addr, PARALLEL_SUBMIT_WIDTH));
                let row: usize = array_bytes(ENGINE_CLASS_INSTANCE_SIZE, num_siblings as usize)?;
                let engines: usize = array_bytes(row, width as usize)?;
                add_array(PARALLEL_SUBMIT_SIZE, engines)
            },
            _ => Err(Error::UnsupportedName),
        }
    }

    /// What the alloc phase does from the engine extension at `src` on: every
    /// extension gets a copy of its own size, linked to the one before.
    pub open spec fn chain_allocated(h: ShadowView, slot: u64, t: Bytes, src: u64, fuel: nat) -> (
        Result<(), Error>,
        ShadowView,
    ) {
        plain_chain_allocated(Self::sizer(), h, slot, t, src, fuel)
    }

    /// What the alloc phase does for the value at `src` in the trusted memory
    /// and its copy at `dst`: the copy gets an empty chain, then a copy of
    /// every engine extension of the source.
    #[verifier::opaque]
    pub open spec fn allocated(h: ShadowView, dst: u64, t: Bytes, src: u64) -> (
        Result<(), Error>,
        ShadowView,
    ) {
        Self::chain_allocated(
            ShadowView { arenas: h.arenas, bytes: with_u64(h.bytes, dst, 0) },
            dst,
            t,
            u64_at(t, src),
            CHAIN_LIMIT as nat,
        )
    }

    /// Builds the chain of the copy at `dst` after the chain of the value at
    /// `src`.
    pub fn allocate<T: Memory, U: Memory>(host: &mut Shadow<U>, dst: u64, trusted: &T, src: u64) -> (r:
        Result<(), Error>)
        requires
            old(host).wf(),
        ensures
            final(host).wf(),
            (r, final(host)@) == Self::allocated(old(host)@, dst, trusted.bytes(), src),
    {
        reveal(i915_context_param_engines::allocated);
        write_u64(&mut host.memory, dst, 0);
        let mut ext_src: u64 = read_u64(trusted, src);
        let mut slot: u64 = dst;
        let mut steps: u64 = 0;
        while ext_src != 0
            invariant
                host.wf(),
                Self::chain_allocated(
                    host@,
                    slot,
                    trusted.bytes(),
                    ext_src,
                    (CHAIN_LIMIT - steps) as nat,
                ) == Self::allocated(old(host)@, dst, trusted.bytes(), src),
            decreases CHAIN_LIMIT - steps,
        {
            if steps == CHAIN_LIMIT {
                return Err(Error::EndlessChain);
            }
            let size: usize = Self::sizeof(trusted, ext_src)?;
            alloc_into(host, slot, size)?;
            let node: u64 = read_u64(&host.memory, slot);
            i915_user_extension::init(&mut host.memory, node);
            ext_src = read_u64(trusted, ext_src);
            slot = read_u64(&host.memory, slot);
            steps = steps + 1;
        }
        Ok(())
    }

    /// How the size of an engine extension is read.
    pub open spec fn sizer() -> SizeOf {
        |m: Bytes, addr: u64| Self::size_of_node(m, addr)
    }

    /// What a copy does from the engine extension at `src` on: every
    /// extension is copied whole, with its engines, to the extension at the
    /// same place of the chain of the destination, which keeps its place in
    /// its own chain.
    pub open spec fn chain_copied(d: Bytes, slot: u64, s: Bytes, src: u64, fuel: nat) -> (
        Result<(), Error>,
        Bytes,
    ) {
        plain_chain_copied(Self::sizer(), d, slot, s, src, fuel)
    }

    /// Walking a chain of engine extensions that was already copied copies it
    /// to the same image.
    pub proof fn lemma_chain_copied_twice(d: Bytes, slot: u64, s: Bytes, src: u64, fuel: nat)
        requires
            laid_out(Self::sizer(), d, slot, s, src, fuel),
        ensures
            ({
                let (r, once) = Self::chain_copied(d, slot, s, src, fuel);
                let (again, twice) = Self::chain_copied(once, slot, s, src, fuel);
                again == r && same_bytes(twice, once)
            }),
    {
        lemma_chain_copied_twice(Self::sizer(), d, slot, s, src, fuel);
    }

    /// What a copy from the value at `src` in `s` to the one at `dst` in `d`
    /// does: every engine extension of the source is copied to the extension
    /// at the same place of the chain of the destination.
    #[verifier::opaque]
    pub open spec fn copy_result(d: Bytes, dst: u64, s: Bytes, src: u64) -> (Result<(), Error>, Bytes) {
        Self::chain_copied(d, dst, s, u64_at(s, src), CHAIN_LIMIT as nat)
    }

    /// Copies the chain of the value at `src` to the chain of the value at
    /// `dst`.
    pub fn copy<D: Memory, S: Memory>(dst_mem: &mut D, dst: u64, src_mem: &S, src: u64) -> (r:
        Result<(), Error>)
        ensures
            (r, final(dst_mem).bytes()) == Self::copy_result(
                old(dst_mem).bytes(),
                dst,
                src_mem.bytes(),
                src,
            ),
    {
        reveal(i915_context_param_engines::copy_result);
        let mut ext_src: u64 = read_u64(src_mem, src);
        let mut slot: u64 = dst;
        let mut steps: u64 = 0;
        while ext_src != 0
            invariant
                Self::chain_copied(
                    dst_mem.bytes(),
                    slot,
                    src_mem.bytes(),
                    ext_src,
                    (CHAIN_LIMIT - steps) as nat,
                ) == Self::copy_result(old(dst_mem).bytes(), dst, src_mem.bytes(), src),
            decreases CHAIN_LIMIT - steps,
        {
            if steps == CHAIN_LIMIT {
                return Err(Error::EndlessChain);
            }
            let node: u64 = read_u64(dst_mem, slot);
            let next: u64 = read_u64(dst_mem, node);
            let size: usize = Self::sizeof(src_mem, ext_src)?;
            copy(dst_mem, node, src_mem, ext_src, size);
            write_u64(dst_mem, node, next);
            ext_src = read_u64(src_mem, ext_src);
            slot = read_u64(dst_mem, slot);
            steps = steps + 1;
        }
        Ok(())
    }

    /// What the free phase does from the engine extension at `ext` on: every
    /// extension is given back, in its own size.
    pub open spec fn chain_freed(h: ShadowView, ext: u64, fuel: nat) -> (
        Result<(), Error>,
        ShadowView,
    ) {
        plain_chain_freed(Self::sizer(), h, ext, fuel)
    }

    /// What the free phase does for the value at `addr`: every engine
    /// extension of its chain is given back, in its own size.
    #[verifier::opaque]
    pub open spec fn freed(h: ShadowView, addr: u64) -> (Result<(), Error>, ShadowView) {
        Self::chain_freed(h, u64_at(h.bytes, addr), CHAIN_LIMIT as nat)
    }

    /// Gives back the chain of the value at `addr`.
    pub fn free<U: Memory>(host: &mut Shadow<U>, addr: u64) -> (r: Result<(), Error>)
        requires
            old(host).wf(),
        ensures
            final(host).wf(),
            (r, final(host)@) == Self::freed(old(host)@, addr),
    {
        reveal(i915_context_param_engines::freed);
        let mut ext: u64 = read_u64(&host.memory, addr);
        let mut steps: u64 = 0;
        while ext != 0
            invariant
                host.wf(),
                Self::chain_freed(host@, ext, (CHAIN_LIMIT - steps) as nat) == Self::freed(
                    old(host)@,
                    addr,
                ),
            decreases CHAIN_LIMIT - steps,
        {
            if steps == CHAIN_LIMIT {
                return Err(Error::EndlessChain);
            }
            let next: u64 = read_u64(&host.memory, ext);
            let size: usize = Self::sizeof(&host.memory, ext)?;
            let _ = free(&mut host.manager, ext, size);
            ext = next;
            steps = steps + 1;
        }
        Ok(())
    }
}

/// What the value of a context parameter holds.
#[derive(Debug, Clone, Copy, PartialEq, Eq, Structural)]
pub enum Value {
    /// Bytes that the marshaller does not look into.
    Opaque,
    /// The engines of a context, with a chain of engine extensions.
    Engines,
}

/// A parameter of a context: `ctx_id`, the `size` of the value, the parameter
/// `param`, and `value`: the value itself where `size` is zero, else the
/// address of a buffer of `size` bytes.
#[allow(non_camel_case_types)]
#[derive(Debug, Clone, Copy, PartialEq, Eq, Structural)]
pub struct drm_i915_gem_context_param {
    /// The context.
    pub ctx_id: u32,
    /// The size of the value, or zero for a value that is held inline.
    pub size: u32,
    /// The parameter.
    pub param: u64,
    /// The value, or the address of its buffer.
    pub value: u64,
}

/// Offset of the size of the value.
pub const CONTEXT_PARAM_SIZE: u64 = 4;

/// Offset of the parameter.
pub const CONTEXT_PARAM_PARAM: u64 = 8;

/// Offset of the value.
pub const CONTEXT_PARAM_VALUE: u64 = 16;

/// Size of the scalar fields `ctx_id`, `size`, `param`.
pub const CONTEXT_PARAM_SCALARS: usize = 16;

impl drm_i915_gem_context_param {
    /// Size of the structure.
    pub const SIZE: usize = 24;

    /// The structure at `addr` in `m`.
    pub open spec fn at(m: Bytes, addr: u64) -> drm_i915_gem_context_param {
        drm_i915_gem_context_param {
            ctx_id: u32_at(m, addr),
            size: u32_at(m, at(addr, 4)),
            param: u64_at(m, at(addr, 8)),
            value: u64_at(m, at(addr, 16)),
        }
    }

    /// Reads the structure at `addr`.
    pub fn load<M: Memory>(mem: &M, addr: u64) -> (p: drm_i915_gem_context_param)
        ensures
            p == Self::at(mem.bytes(), addr),
    {
        drm_i915_gem_context_param {
            ctx_id: read_u32(mem, addr),
            size: read_u32(mem, field(addr, CONTEXT_PARAM_SIZE)),
            param: read_u64(mem, field(addr, CONTEXT_PARAM_PARAM)),
            value: read_u64(mem, field(addr, CONTEXT_PARAM_VALUE)),
        }
    }

    /// What the alloc phase does for the parameter at `src` and its copy at
    /// `dst`: the copy gets a buffer of the size of the source, and a value
    /// that holds engines gets its chain.
    #[verifier::opaque]
    pub open spec fn allocated_with(h: ShadowView, dst: u64, t: Bytes, src: u64, value: Value) -> (
        Result<(), Error>,
        ShadowView,
    ) {
        let (r1, h1) = allocated_into(h, at(dst, 16), u32_at(t, at(src, 4)) as usize);
        if r1 is Err || value == Value::Opaque {
            (r1, h1)
        } else {
            i915_context_param_engines::allocated(
                h1,
                u64_at(h1.bytes, at(dst, 16)),
                t,
                u64_at(t, at(src, 16)),
            )
        }
    }

    /// Allocates the buffer of the copy at `dst` and what the value holds.
    pub fn allocate_with<T: Memory, U: Memory>(
        host: &mut Shadow<U>,
        dst: u64,
        trusted: &T,
        src: u64,
        value: Value,
    ) -> (r: Result<(), Error>)
        requires
            old(host).wf(),
        ensures
            final(host).wf(),
            (r, final(host)@) == Self::allocated_with(
                old(host)@,
                dst,
                trusted.bytes(),
                src,
                value,
            ),
    {
        reveal(drm_i915_gem_context_param::allocated_with);
        let size: u32 = read_u32(trusted, field(src, CONTEXT_PARAM_SIZE));
        alloc_into(host, field(dst, CONTEXT_PARAM_VALUE), size as usize)?;
        match value {
            Value::Opaque => Ok(()),
            Value::Engines => {
                let engines_dst: u64 = read_u64(&host.memory, field(dst, CONTEXT_PARAM_VALUE));
                let engines_src: u64 = read_u64(trusted, field(src, CONTEXT_PARAM_VALUE));
                i915_context_param_engines::allocate(host, engines_dst, trusted, engines_src)
            },
        }
    }

    /// What a copy of the value does: a value with a size is copied from
    /// buffer to buffer, and where it holds engines the destination keeps the
    /// head of its own chain; a value without size is copied as it stands.
    pub open spec fn value_copied(d: Bytes, dst: u64, s: Bytes, src: u64, value: Value) -> Bytes {
        let size = u32_at(s, at(src, 4));
        if size > 0 {
            let moved = payload_copied(d, at(dst, 16), s, at(src, 16), size as usize);
            if value == Value::Engines {
                with_u64(
                    moved,
                    u64_at(moved, at(dst, 16)),
                    u64_at(d, u64_at(d, at(dst, 16))),
                )
            } else {
                moved
            }
        } else {
            copied(d, at(dst, 16), s, at(src, 16), 8)
        }
    }

    /// What a copy from the parameter at `src` in `s` to the one at `dst` in
    /// `d` does: the scalar fields are copied, then the value, then the chain
    /// of a value that holds engines.
    #[verifier::opaque]
    pub open spec fn copied_with(d: Bytes, dst: u64, s: Bytes, src: u64, value: Value) -> (
        Result<(), Error>,
        Bytes,
    ) {
        let d1 = copied(d, dst, s, src, CONTEXT_PARAM_SCALARS as nat);
        let d2 = Self::value_copied(d1, dst, s, src, value);
        if value == Value::Engines {
            i915_context_param_engines::copy_result(
                d2,
                u64_at(d2, at(dst, 16)),
                s,
                u64_at(s, at(src, 16)),
            )
        } else {
            (Ok(()), d2)
        }
    }

    /// Copies the parameter at `src` to the one at `dst`, with its value and
    /// what the value holds.
    pub fn copy_with<D: Memory, S: Memory>(
        dst_mem: &mut D,
        dst: u64,
        src_mem: &S,
        src: u64,
        value: Value,
    ) -> (r: Result<(), Error>)
        ensures
            (r, final(dst_mem).bytes()) == Self::copied_with(
                old(dst_mem).bytes(),
                dst,
                src_mem.bytes(),
                src,
                value,
            ),
    {
        reveal(drm_i915_gem_context_param::copied_with);
        copy(dst_mem, dst, src_mem, src, CONTEXT_PARAM_SCALARS);
        let size: u32 = read_u32(src_mem, field(src, CONTEXT_PARAM_SIZE));
        if size > 0 {
            match value {
                Value::Engines => {
                    let head: u64 = read_u64(
                        dst_mem,
                        read_u64(dst_mem, field(dst, CONTEXT_PARAM_VALUE)),
                    );
                    copy_payload(
                        dst_mem,
                        field(dst, CONTEXT_PARAM_VALUE),
                        src_mem,
                        field(src, CONTEXT_PARAM_VALUE),
                        size as usize,
                    );
                    let engines: u64 = read_u64(dst_mem, field(dst, CONTEXT_PARAM_VALUE));
                    write_u64(dst_mem, engines, head);
                },
                Value::Opaque => {
                    copy_payload(
                        dst_mem,
                        field(dst, CONTEXT_PARAM_VALUE),
                        src_mem,
                        field(src, CONTEXT_PARAM_VALUE),
                        size as usize,
                    );
                },
            }
        } else {
            copy(
                dst_mem,
                field(dst, CONTEXT_PARAM_VALUE),
                src_mem,
                field(src, CONTEXT_PARAM_VALUE),
                8,
            );
        }
        match value {
            Value::Opaque => Ok(()),
            Value::Engines => {
                let engines_dst: u64 = read_u64(dst_mem, field(dst, CONTEXT_PARAM_VALUE));
                let engines_src: u64 = read_u64(src_mem, field(src, CONTEXT_PARAM_VALUE));
                i915_context_param_engines::copy(dst_mem, engines_dst, src_mem, engines_src)
            },
        }
    }

    /// What the free phase does for the copy at `addr`: the chain of a value
    /// that holds engines is given back, then the buffer of the value, in the
    /// size that the copy holds. A value without size has no buffer.
    #[verifier::opaque]
    pub open spec fn freed_with(h: ShadowView, addr: u64, value: Value) -> (
        Result<(), Error>,
        ShadowView,
    ) {
        let (r1, h1) = if value == Value::Engines {
            i915_context_param_engines::freed(h, u64_at(h.bytes, at(addr, 16)))
        } else {
            (Ok(()), h)
        };
        if r1 is Err || u32_at(h.bytes, at(addr, 4)) == 0 {
            (r1, h1)
        } else {
            (Ok(()), freed_from(h1, at(addr, 16), u32_at(h.bytes, at(addr, 4)) as usize))
        }
    }

    /// Gives back the buffer of the copy at `addr` and what the value holds.
    pub fn free_with<U: Memory>(host: &mut Shadow<U>, addr: u64, value: Value) -> (r: Result<
        (),
        Error,
    >)
        requires
            old(host).wf(),
        ensures
            final(host).wf(),
            (r, final(host)@) == Self::freed_with(old(host)@, addr, value),
    {
        reveal(drm_i915_gem_context_param::freed_with);
        let size: u32 = read_u32(&host.memory, field(addr, CONTEXT_PARAM_SIZE));
        match value {
            Value::Opaque => {},
            Value::Engines => {
                let engines: u64 = read_u64(&host.memory, field(addr, CONTEXT_PARAM_VALUE));
                i915_context_param_engines::free(host, engines)?;
            },
        }
        if size > 0 {
            free_from(host, field(addr, CONTEXT_PARAM_VALUE), size as usize);
        }
        Ok(())
    }

    /// Whether the parameter at `addr` in `m` configures engines with a value
    /// that has a size: the value is then a nested parameter, whose own
    /// value begins a chain of engine extensions.
    pub open spec fn nests(m: Bytes, addr: u64) -> bool {
        u32_at(m, at(addr, 4)) > 0 && u64_at(m, at(addr, 8)) == I915_CONTEXT_PARAM_ENGINES
    }

    /// Whether the parameter at `addr` configures engines with a value that
    /// has a size.
    pub fn nests_at<M: Memory>(mem: &M, addr: u64) -> (r: bool)
        ensures
            r == Self::nests(mem.bytes(), addr),
    {
        let size: u32 = read_u32(mem, field(addr, CONTEXT_PARAM_SIZE));
        let param: u64 = read_u64(mem, field(addr, CONTEXT_PARAM_PARAM));
        size > 0 && param == I915_CONTEXT_PARAM_ENGINES
    }

    /// What the alloc phase does for the argument at `src` and its copy at
    /// `dst`: the copy gets a buffer of the size of the source, and where the
    /// argument configures engines, the nested parameter in that buffer gets
    /// its own buffer and its chain.
    #[verifier::opaque]
    pub open spec fn allocated(h: ShadowView, dst: u64, t: Bytes, src: u64) -> (
        Result<(), Error>,
        ShadowView,
    ) {
        let (r1, h1) = Self::allocated_with(h, dst, t, src, Value::Opaque);
        if r1 is Err || !Self::nests(t, src) {
            (r1, h1)
        } else {
            Self::allocated_with(
                h1,
                u64_at(h1.bytes, at(dst, 16)),
                t,
                u64_at(t, at(src, 16)),
                Value::Engines,
            )
        }
    }

    /// Allocates the buffer of the copy at `dst`, as long as the value of the
    /// argument at `src`, and what lies behind a value that configures
    /// engines.
    pub fn allocate<T: Memory, U: Memory>(host: &mut Shadow<U>, dst: u64, trusted: &T, src: u64) -> (r:
        Result<(), Error>)
        requires
            old(host).wf(),
        ensures
            final(host).wf(),
            (r, final(host)@) == Self::allocated(old(host)@, dst, trusted.bytes(), src),
    {
        reveal(drm_i915_gem_context_param::allocated);
        Self::allocate_with(host, dst, trusted, src, Value::Opaque)?;
        if Self::nests_at(trusted, src) {
            let nested_dst: u64 = read_u64(&host.memory, field(dst, CONTEXT_PARAM_VALUE));
            let nested_src: u64 = read_u64(trusted, field(src, CONTEXT_PARAM_VALUE));
            Self::allocate_with(host, nested_dst, trusted, nested_src, Value::Engines)
        } else {
            Ok(())
        }
    }

    /// What a copy from the argument at `src` in `s` to the one at `dst` in
    /// `d` does. On the way back a destination that holds its value inline
    /// takes size and value of the source and nothing else. Where the source
    /// configures engines, the scalar fields and the value are copied, the
    /// nested parameter of the destination keeps the address of its own
    /// value, and is copied in its turn. In every other case the scalar
    /// fields and the value are copied.
    #[verifier::opaque]
    pub open spec fn copy_result(d: Bytes, dst: u64, s: Bytes, src: u64, direction: Direction) -> (
        Result<(), Error>,
        Bytes,
    ) {
        if direction == Direction::u2t && u32_at(d, at(dst, 4)) == 0 {
            (
                Ok(()),
                copied(copied(d, at(dst, 4), s, at(src, 4), 4), at(dst, 16), s, at(src, 16), 8),
            )
        } else if Self::nests(s, src) {
            let d1 = copied(d, dst, s, src, CONTEXT_PARAM_SCALARS as nat);
            let moved = payload_copied(
                d1,
                at(dst, 16),
                s,
                at(src, 16),
                u32_at(s, at(src, 4)) as usize,
            );
            let nested_dst = u64_at(moved, at(dst, 16));
            Self::copied_with(
                with_u64(
                    moved,
                    at(nested_dst, 16),
                    u64_at(d1, at(u64_at(d1, at(dst, 16)), 16)),
                ),
                nested_dst,
                s,
                u64_at(s, at(src, 16)),
                Value::Engines,
            )
        } else {
            Self::copied_with(d, dst, s, src, Value::Opaque)
        }
    }

    /// Copies the argument at `src` to the one at `dst`.
    pub fn copy<D: Memory, S: Memory>(
        dst_mem: &mut D,
        dst: u64,
        src_mem: &S,
        src: u64,
        direction: Direction,
    ) -> (r: Result<(), Error>)
        ensures
            (r, final(dst_mem).bytes()) == Self::copy_result(
                old(dst_mem).bytes(),
                dst,
                src_mem.bytes(),
                src,
                direction,
            ),
    {
        reveal(drm_i915_gem_context_param::copy_result);
        if direction == Direction::u2t && read_u32(dst_mem, field(dst, CONTEXT_PARAM_SIZE)) == 0 {
            copy(
                dst_mem,
                field(dst, CONTEXT_PARAM_SIZE),
                src_mem,
                field(src, CONTEXT_PARAM_SIZE),
                4,
            );
            copy(
                dst_mem,
                field(dst, CONTEXT_PARAM_VALUE),
                src_mem,
                field(src, CONTEXT_PARAM_VALUE),
                8,
            );
            return Ok(());
        }
        if Self::nests_at(src_mem, src) {
            copy(dst_mem, dst, src_mem, src, CONTEXT_PARAM_SCALARS);
            let size: u32 = read_u32(src_mem, field(src, CONTEXT_PARAM_SIZE));
            let kept: u64 = read_u64(
                dst_mem,
                field(read_u64(dst_mem, field(dst, CONTEXT_PARAM_VALUE)), CONTEXT_PARAM_VALUE),
            );
            copy_payload(
                dst_mem,
                field(dst, CONTEXT_PARAM_VALUE),
                src_mem,
                field(src, CONTEXT_PARAM_VALUE),
                size as usize,
            );
            let nested_src: u64 = read_u64(src_mem, field(src, CONTEXT_PARAM_VALUE));
            let nested_dst: u64 = read_u64(dst_mem, field(dst, CONTEXT_PARAM_VALUE));
            write_u64(dst_mem, field(nested_dst, CONTEXT_PARAM_VALUE), kept);
            Self::copy_with(dst_mem, nested_dst, src_mem, nested_src, Value::Engines)
        } else {
            Self::copy_with(dst_mem, dst, src_mem, src, Value::Opaque)
        }
    }

    /// What the free phase does for the copy at `addr`: where it configures
    /// engines and its value lies in the arenas, the nested parameter gives
    /// back its chain and its buffer; then the buffer of the value is given
    /// back. A value that lies in no arena is no buffer of the copy: the
    /// driver has written the size of a copy that asked for it.
    #[verifier::opaque]
    pub open spec fn freed(h: ShadowView, addr: u64) -> (Result<(), Error>, ShadowView) {
        let (r1, h1) = if Self::nests(h.bytes, addr) && owned(
            h.arenas,
            u64_at(h.bytes, at(addr, 16)),
        ) {
            Self::freed_with(h, u64_at(h.bytes, at(addr, 16)), Value::Engines)
        } else {
            (Ok(()), h)
        };
        if r1 is Err {
            (r1, h1)
        } else {
            Self::freed_with(h1, addr, Value::Opaque)
        }
    }

    /// Gives back the buffer of the copy at `addr`, and what lies behind a
    /// value that configures engines.
    pub fn free<U: Memory>(host: &mut Shadow<U>, addr: u64) -> (r: Result<(), Error>)
        requires
            old(host).wf(),
        ensures
            final(host).wf(),
            (r, final(host)@) == Self::freed(old(host)@, addr),
    {
        reveal(drm_i915_gem_context_param::freed);
        if Self::nests_at(&host.memory, addr) {
            let nested: u64 = read_u64(&host.memory, field(addr, CONTEXT_PARAM_VALUE));
            if owns(&host.manager, nested) {
                Self::free_with(host, nested, Value::Engines)?;
            }
        }
        Self::free_with(host, addr, Value::Opaque)
    }
}

/// The extension that sets a parameter of a context that is being created:
/// the header, then the parameter.
#[allow(non_camel_case_types)]
pub struct drm_i915_gem_context_create_ext_setparam {}

/// Offset of the parameter in the extension.
pub const CONTEXT_SETPARAM_PARAM: u64 = 32;

/// Offset of the size of the value of the parameter.
pub const CONTEXT_SETPARAM_SIZE: u64 = 36;

/// Offset of the parameter itself.
pub const CONTEXT_SETPARAM_NAME: u64 = 40;

/// Offset of the value of the parameter.
pub const CONTEXT_SETPARAM_VALUE: u64 = 48;

impl drm_i915_gem_context_create_ext_setparam {
    /// Size of the extension.
    pub const SIZE: usize = 56;

    /// What the alloc phase does for the extension at `src` and its copy at
    /// `dst`: a value with a size gets a buffer, and where the parameter
    /// configures engines, the nested parameter in that buffer gets its own
    /// buffer and its chain; a value without size is `PTR_NULL`.
    #[verifier::opaque]
    pub open spec fn allocated(h: ShadowView, dst: u64, t: Bytes, src: u64) -> (
        Result<(), Error>,
        ShadowView,
    ) {
        let size = u32_at(t, at(src, 36));
        if size > 0 {
            let (r1, h1) = allocated_into(h, at(dst, 48), size as usize);
            if r1 is Err || u64_at(t, at(src, 40)) != I915_CONTEXT_PARAM_ENGINES {
                (r1, h1)
            } else {
                drm_i915_gem_context_param::allocated_with(
                    h1,
                    u64_at(h1.bytes, at(dst, 48)),
                    t,
                    u64_at(t, at(src, 48)),
                    Value::Engines,
                )
            }
        } else {
            (Ok(()), ShadowView { arenas: h.arenas, bytes: with_u64(h.bytes, at(dst, 48), PTR_NULL) })
        }
    }

    /// Allocates the value of the copy at `dst` and what lies behind it.
    pub fn allocate<T: Memory, U: Memory>(host: &mut Shadow<U>, dst: u64, trusted: &T, src: u64) -> (r:
        Result<(), Error>)
        requires
            old(host).wf(),
        ensures
            final(host).wf(),
            (r, final(host)@) == Self::allocated(old(host)@, dst, trusted.bytes(), src),
    {
        reveal(drm_i915_gem_context_create_ext_setparam::allocated);
        let size: u32 = read_u32(trusted, field(src, CONTEXT_SETPARAM_SIZE));
        if size > 0 {
            alloc_into(host, field(dst, CONTEXT_SETPARAM_VALUE), size as usize)?;
            let param: u64 = read_u64(trusted, field(src, CONTEXT_SETPARAM_NAME));
            if param == I915_CONTEXT_PARAM_ENGINES {
                let context_src: u64 = read_u64(trusted, field(src, CONTEXT_SETPARAM_VALUE));
                let context_dst: u64 = read_u64(&host.memory, field(dst, CONTEXT_SETPARAM_VALUE));
                drm_i915_gem_context_param::allocate_with(
                    host,
                    context_dst,
                    trusted,
                    context_src,
                    Value::Engines,
                )?;
            }
        } else {
            write_u64(&mut host.memory, field(dst, CONTEXT_SETPARAM_VALUE), PTR_NULL);
        }
        Ok(())
    }

    /// What a copy from the extension at `src` in `s` to the one at `dst` in
    /// `d` does: the scalar fields of the parameter are copied; a value with a
    /// size is copied from buffer to buffer; and where the parameter
    /// configures engines, the nested parameter of the destination keeps the
    /// address of its own value, and is copied in its turn.
    #[verifier::opaque]
    pub open spec fn copy_result(d: Bytes, dst: u64, s: Bytes, src: u64) -> (Result<(), Error>, Bytes) {
        let d1 = copied(d, at(dst, 32), s, at(src, 32), CONTEXT_PARAM_SCALARS as nat);
        let size = u32_at(s, at(src, 36));
        if size > 0 {
            let moved = payload_copied(d1, at(dst, 48), s, at(src, 48), size as usize);
            if u64_at(s, at(src, 40)) == I915_CONTEXT_PARAM_ENGINES {
                let context_dst = u64_at(moved, at(dst, 48));
                drm_i915_gem_context_param::copied_with(
                    with_u64(
                        moved,
                        at(context_dst, 16),
                        u64_at(d1, at(u64_at(d1, at(dst, 48)), 16)),
                    ),
                    context_dst,
                    s,
                    u64_at(s, at(src, 48)),
                    Value::Engines,
                )
            } else {
                (Ok(()), moved)
            }
        } else {
            (Ok(()), d1)
        }
    }

    /// Copies the parameter of the extension at `src` to the extension at
    /// `dst`, with its value and what lies behind it.
    pub fn copy<D: Memory, S: Memory>(dst_mem: &mut D, dst: u64, src_mem: &S, src: u64) -> (r:
        Result<(), Error>)
        ensures
            (r, final(dst_mem).bytes()) == Self::copy_result(
                old(dst_mem).bytes(),
                dst,
                src_mem.bytes(),
                src,
            ),
    {
        reveal(drm_i915_gem_context_create_ext_setparam::copy_result);
        copy(
            dst_mem,
            field(dst, CONTEXT_SETPARAM_PARAM),
            src_mem,
            field(src, CONTEXT_SETPARAM_PARAM),
            CONTEXT_PARAM_SCALARS,
        );
        let size: u32 = read_u32(src_mem, field(src, CONTEXT_SETPARAM_SIZE));
        if size > 0 {
            let kept: u64 = read_u64(
                dst_mem,
                field(read_u64(dst_mem, field(dst, CONTEXT_SETPARAM_VALUE)), CONTEXT_PARAM_VALUE),
            );
            copy_payload(
                dst_mem,
                field(dst, CONTEXT_SETPARAM_VALUE),
                src_mem,
                field(src, CONTEXT_SETPARAM_VALUE),
                size as usize,
            );
            let param: u64 = read_u64(src_mem, field(src, CONTEXT_SETPARAM_NAME));
            if param == I915_CONTEXT_PARAM_ENGINES {
                let context_src: u64 = read_u64(src_mem, field(src, CONTEXT_SETPARAM_VALUE));
                let context_dst: u64 = read_u64(dst_mem, field(dst, CONTEXT_SETPARAM_VALUE));
                write_u64(dst_mem, field(context_dst, CONTEXT_PARAM_VALUE), kept);
                drm_i915_gem_context_param::copy_with(
                    dst_mem,
                    context_dst,
                    src_mem,
                    context_src,
                    Value::Engines,
                )?;
            }
        }
        Ok(())
    }

    /// What the free phase does for the copy at `addr`: where the value has a
    /// size, the nested parameter of a parameter that configures engines
    /// gives back its chain and its buffer, then the buffer of the value is
    /// given back.
    #[verifier::opaque]
    pub open spec fn freed(h: ShadowView, addr: u64) -> (Result<(), Error>, ShadowView) {
        let size = u32_at(h.bytes, at(addr, 36));
        if size > 0 {
            let (r1, h1) = if u64_at(h.bytes, at(addr, 40)) == I915_CONTEXT_PARAM_ENGINES {
                drm_i915_gem_context_param::freed_with(
                    h,
                    u64_at(h.bytes, at(addr, 48)),
                    Value::Engines,
                )
            } else {
                (Ok(()), h)
            };
            if r1 is Err {
                (r1, h1)
            } else {
                (Ok(()), freed_from(h1, at(addr, 48), size as usize))
            }
        } else {
            (Ok(()), h)
        }
    }

    /// Gives back the value of the copy at `addr` and what lies behind it.
    pub fn free<U: Memory>(host: &mut Shadow<U>, addr: u64) -> (r: Result<(), Error>)
        requires
            old(host).wf(),
        ensures
            final(host).wf(),
            (r, final(host)@) == Self::freed(old(host)@, addr),
    {
        reveal(drm_i915_gem_context_create_ext_setparam::freed);
        let size: u32 = read_u32(&host.memory, field(addr, CONTEXT_SETPARAM_SIZE));
        if size > 0 {
            let param: u64 = read_u64(&host.memory, field(addr, CONTEXT_SETPARAM_NAME));
            if param == I915_CONTEXT_PARAM_ENGINES {
                let context: u64 = read_u64(&host.memory, field(addr, CONTEXT_SETPARAM_VALUE));
                drm_i915_gem_context_param::free_with(host, context, Value::Engines)?;
            }
            free_from(host, field(addr, CONTEXT_SETPARAM_VALUE), size as usize);
        }
        Ok(())
    }
}

/// The argument that creates a context: `ctx_id`, `flags` and the address of
/// the first extension.
#[allow(non_camel_case_types)]
pub struct drm_i915_gem_context_create_ext {}

/// Offset of the address of the first extension.
pub const CONTEXT_CREATE_EXTENSIONS: u64 = 8;

/// Size of the scalar fields `ctx_id` and `flags`.
pub const CONTEXT_CREATE_SCALARS: usize = 8;

/// The name of the extension that sets a parameter.
pub const CONTEXT_CREATE_EXT_SETPARAM: u32 = 0;

impl drm_i915_gem_context_create_ext {
    /// Size of the argument itself.
    pub const SIZE: usize = 16;

    /// The size of the extension with the name `name`, for a name that has a
    /// layout. The name is the low 16 bits of what the header holds; the
    /// reserved bits above them select nothing.
    pub open spec fn size_of_node(name: u32) -> Result<usize, Error> {
        if name == CONTEXT_CREATE_EXT_SETPARAM {
            Ok(drm_i915_gem_context_create_ext_setparam::SIZE)
        } else {
            Err(Error::UnsupportedName)
        }
    }

    /// The size of the extension with the name `name`.
    pub fn sizeof(name: u32) -> (r: Result<usize, Error>)
        ensures
            r == Self::size_of_node(name),
    {
        match name {
            0 => Ok(drm_i915_gem_context_create_ext_setparam::SIZE),
            _ => Err(Error::UnsupportedName),
        }
    }

    /// What the alloc phase does for one extension: the pointer at `slot` gets
    /// a new extension of the size that the name of the source gives, which
    /// ends the chain, and which gets the value of its parameter.
    pub open spec fn node_allocated(h: ShadowView, slot: u64, t: Bytes, src: u64) -> (
        Result<(), Error>,
        ShadowView,
    ) {
        match Self::size_of_node(u32_at(t, at(src, 8)) & PRELIM_I915_USER_EXT_MASK) {
            Err(e) => (Err(e), h),
            Ok(size) => {
                let (r1, h1) = allocated_into(h, slot, size);
                if r1 is Err {
                    (r1, h1)
                } else {
                    let node = u64_at(h1.bytes, slot);
                    drm_i915_gem_context_create_ext_setparam::allocated(
                        ShadowView { arenas: h1.arenas, bytes: with_u64(h1.bytes, node, 0) },
                        node,
                        t,
                        src,
                    )
                }
            },
        }
    }

    /// Allocates the copy of the extension at `src` and writes its address to
    /// the pointer at `slot`.
    pub fn node_allocate<T: Memory, U: Memory>(
        host: &mut Shadow<U>,
        slot: u64,
        trusted: &T,
        src: u64,
    ) -> (r: Result<(), Error>)
        requires
            old(host).wf(),
        ensures
            final(host).wf(),
            (r, final(host)@) == Self::node_allocated(old(host)@, slot, trusted.bytes(), src),
    {
        let name: u32 = read_u32(trusted, field(src, 8)) & PRELIM_I915_USER_EXT_MASK;
        let size: usize = Self::sizeof(name)?;
        alloc_into(host, slot, size)?;
        let node: u64 = read_u64(&host.memory, slot);
        i915_user_extension::init(&mut host.memory, node);
        if name == CONTEXT_CREATE_EXT_SETPARAM {
            drm_i915_gem_context_create_ext_setparam::allocate(host, node, trusted, src)?;
        }
        Ok(())
    }

    /// What the alloc phase does from the extension at `src` on, where the
    /// pointer at `slot` is to hold the address of its copy.
    pub open spec fn chain_allocated(h: ShadowView, slot: u64, t: Bytes, src: u64, fuel: nat) -> (
        Result<(), Error>,
        ShadowView,
    )
        decreases fuel,
    {
        if src == 0 {
            (Ok(()), h)
        } else if fuel == 0 {
            (Err(Error::EndlessChain), h)
        } else {
            let (r, h1) = Self::node_allocated(h, slot, t, src);
            if r is Err {
                (r, h1)
            } else {
                Self::chain_allocated(
                    h1,
                    u64_at(h1.bytes, slot),
                    t,
                    u64_at(t, src),
                    (fuel - 1) as nat,
                )
            }
        }
    }

    /// What the alloc phase does for the argument at `src` and its copy at
    /// `dst`: the copy gets an empty chain, then a copy of every extension of
    /// the source.
    #[verifier::opaque]
    pub open spec fn allocated(h: ShadowView, dst: u64, t: Bytes, src: u64) -> (
        Result<(), Error>,
        ShadowView,
    ) {
        Self::chain_allocated(
            ShadowView { arenas: h.arenas, bytes: with_u64(h.bytes, at(dst, 8), 0) },
            at(dst, 8),
            t,
            u64_at(t, at(src, 8)),
            CHAIN_LIMIT as nat,
        )
    }

    /// Builds the chain of the copy at `dst` after the chain of the argument
    /// at `src`.
    pub fn allocate<T: Memory, U: Memory>(host: &mut Shadow<U>, dst: u64, trusted: &T, src: u64) -> (r:
        Result<(), Error>)
        requires
            old(host).wf(),
        ensures
            final(host).wf(),
            (r, final(host)@) == Self::allocated(old(host)@, dst, trusted.bytes(), src),
    {
        reveal(drm_i915_gem_context_create_ext::allocated);
        write_u64(&mut host.memory, field(dst, CONTEXT_CREATE_EXTENSIONS), 0);
        let mut ext_src: u64 = read_u64(trusted, field(src, CONTEXT_CREATE_EXTENSIONS));
        let mut slot: u64 = field(dst, CONTEXT_CREATE_EXTENSIONS);
        let mut steps: u64 = 0;
        while ext_src != 0
            invariant
                host.wf(),
                Self::chain_allocated(
                    host@,
                    slot,
                    trusted.bytes(),
                    ext_src,
                    (CHAIN_LIMIT - steps) as nat,
                ) == Self::allocated(old(host)@, dst, trusted.bytes(), src),
            decreases CHAIN_LIMIT - steps,
        {
            if steps == CHAIN_LIMIT {
                return Err(Error::EndlessChain);
            }
            Self::node_allocate(host, slot, trusted, ext_src)?;
            ext_src = read_u64(trusted, ext_src);
            slot = read_u64(&host.memory, slot);
            steps = steps + 1;
        }
        Ok(())
    }

    /// What a copy does for one extension, where the pointer at `slot` holds
    /// the address of the destination: the header is copied but for its place
    /// in the chain, then the parameter of an extension that sets one.
    pub open spec fn node_copied(d: Bytes, slot: u64, s: Bytes, src: u64) -> (
        Result<(), Error>,
        Bytes,
    ) {
        let node = u64_at(d, slot);
        let d1 = i915_user_extension::header_copied(d, node, s, src);
        if u32_at(s, at(src, 8)) & PRELIM_I915_USER_EXT_MASK == CONTEXT_CREATE_EXT_SETPARAM {
            drm_i915_gem_context_create_ext_setparam::copy_result(d1, node, s, src)
        } else {
            (Ok(()), d1)
        }
    }

    /// Copies the extension at `src` to the extension to which the pointer at
    /// `slot` points.
    pub fn node_copy<D: Memory, S: Memory>(dst_mem: &mut D, slot: u64, src_mem: &S, src: u64) -> (r:
        Result<(), Error>)
        ensures
            (r, final(dst_mem).bytes()) == Self::node_copied(
                old(dst_mem).bytes(),
                slot,
                src_mem.bytes(),
                src,
            ),
    {
        let node: u64 = read_u64(dst_mem, slot);
        i915_user_extension::copy(dst_mem, node, src_mem, src);
        let name: u32 = read_u32(src_mem, field(src, 8)) & PRELIM_I915_USER_EXT_MASK;
        if name == CONTEXT_CREATE_EXT_SETPARAM {
            drm_i915_gem_context_create_ext_setparam::copy(dst_mem, node, src_mem, src)
        } else {
            Ok(())
        }
    }

    /// What a copy does from the extension at `src` on.
    pub open spec fn chain_copied(d: Bytes, slot: u64, s: Bytes, src: u64, fuel: nat) -> (
        Result<(), Error>,
        Bytes,
    )
        decreases fuel,
    {
        if src == 0 {
            (Ok(()), d)
        } else if fuel == 0 {
            (Err(Error::EndlessChain), d)
        } else {
            let (r, d1) = Self::node_copied(d, slot, s, src);
            if r is Err {
                (r, d1)
            } else {
                Self::chain_copied(d1, u64_at(d1, slot), s, u64_at(s, src), (fuel - 1) as nat)
            }
        }
    }

    /// What a copy from the structure at `src` in `s` to the one at `dst` in
    /// `d` does: the scalar fields are copied, then the chain.
    #[verifier::opaque]
    pub open spec fn copy_result(d: Bytes, dst: u64, s: Bytes, src: u64) -> (Result<(), Error>, Bytes) {
        Self::chain_copied(
            copied(d, dst, s, src, CONTEXT_CREATE_SCALARS as nat),
            at(dst, 8),
            s,
            u64_at(s, at(src, 8)),
            CHAIN_LIMIT as nat,
        )
    }

    /// Copies the structure at `src` to the one at `dst`, extension by
    /// extension. The direction makes no difference.
    pub fn copy<D: Memory, S: Memory>(
        dst_mem: &mut D,
        dst: u64,
        src_mem: &S,
        src: u64,
        direction: Direction,
    ) -> (r: Result<(), Error>)
        ensures
            (r, final(dst_mem).bytes()) == Self::copy_result(
                old(dst_mem).bytes(),
                dst,
                src_mem.bytes(),
                src,
            ),
    {
        reveal(drm_i915_gem_context_create_ext::copy_result);
        copy(dst_mem, dst, src_mem, src, CONTEXT_CREATE_SCALARS);
        let mut ext_src: u64 = read_u64(src_mem, field(src, CONTEXT_CREATE_EXTENSIONS));
        let mut slot: u64 = field(dst, CONTEXT_CREATE_EXTENSIONS);
        let mut steps: u64 = 0;
        while ext_src != 0
            invariant
                Self::chain_copied(
                    dst_mem.bytes(),
                    slot,
                    src_mem.bytes(),
                    ext_src,
                    (CHAIN_LIMIT - steps) as nat,
                ) == Self::copy_result(old(dst_mem).bytes(), dst, src_mem.bytes(), src),
            decreases CHAIN_LIMIT - steps,
        {
            if steps == CHAIN_LIMIT {
                return Err(Error::EndlessChain);
            }
            Self::node_copy(dst_mem, slot, src_mem, ext_src)?;
            ext_src = read_u64(src_mem, ext_src);
            slot = read_u64(dst_mem, slot);
            steps = steps + 1;
        }
        Ok(())
    }

    /// What the free phase does from the extension at `ext` on: an extension
    /// that sets a parameter gives back its value, then the extension itself
    /// is given back, in the size that its name gives, and so on along the
    /// chain, until it ends or a step fails.
    pub open spec fn chain_freed(h: ShadowView, ext: u64, fuel: nat) -> (Result<(), Error>, ShadowView)
        decreases fuel,
    {
        if ext == 0 {
            (Ok(()), h)
        } else if fuel == 0 {
            (Err(Error::EndlessChain), h)
        } else {
            let name = u32_at(h.bytes, at(ext, 8)) & PRELIM_I915_USER_EXT_MASK;
            let (r1, h1) = if name == CONTEXT_CREATE_EXT_SETPARAM {
                drm_i915_gem_context_create_ext_setparam::freed(h, ext)
            } else {
                (Ok(()), h)
            };
            if r1 is Err {
                (r1, h1)
            } else {
                match Self::size_of_node(name) {
                    Err(e) => (Err(e), h1),
                    Ok(size) => Self::chain_freed(
                        ShadowView { arenas: released(h1.arenas, ext, size), bytes: h1.bytes },
                        u64_at(h1.bytes, ext),
                        (fuel - 1) as nat,
                    ),
                }
            }
        }
    }

    /// What the free phase does for the copy at `addr`.
    #[verifier::opaque]
    pub open spec fn freed(h: ShadowView, addr: u64) -> (Result<(), Error>, ShadowView) {
        Self::chain_freed(h, u64_at(h.bytes, at(addr, 8)), CHAIN_LIMIT as nat)
    }

    /// Gives back the chain of the copy at `addr`.
    pub fn free<U: Memory>(host: &mut Shadow<U>, addr: u64) -> (r: Result<(), Error>)
        requires
            old(host).wf(),
        ensures
            final(host).wf(),
            (r, final(host)@) == Self::freed(old(host)@, addr),
    {
        reveal(drm_i915_gem_context_create_ext::freed);
        let mut ext: u64 = read_u64(&host.memory, field(addr, CONTEXT_CREATE_EXTENSIONS));
        let mut steps: u64 = 0;
        while ext != 0
            invariant
                host.wf(),
                Self::chain_freed(host@, ext, (CHAIN_LIMIT - steps) as nat) == Self::freed(
                    old(host)@,
                    addr,
                ),
            decreases CHAIN_LIMIT - steps,
        {
            if steps == CHAIN_LIMIT {
                return Err(Error::EndlessChain);
            }
            let name: u32 = read_u32(&host.memory, field(ext, 8)) & PRELIM_I915_USER_EXT_MASK;
            if name == CONTEXT_CREATE_EXT_SETPARAM {
                drm_i915_gem_context_create_ext_setparam::free(host, ext)?;
            }
            let next: u64 = read_u64(&host.memory, ext);
            let size: usize = Self::sizeof(name)?;
            let _ = free(&mut host.manager, ext, size);
            ext = next;
            steps = steps + 1;
        }
        Ok(())
    }
}

} // verus!
