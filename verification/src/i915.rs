//! The marshalling engine for i915 ioctls: for each command, how its argument
//! is mirrored into untrusted memory before the call and back afterwards.
//!
//! A call has two halves with the host's ioctl between them. The first half
//! gives the argument a copy in untrusted memory (the alloc phase and the copy
//! from trusted to untrusted memory); the second copies the results back and
//! gives the copy up (the copy from untrusted to trusted memory and the free
//! phase). Structures lie in memory as the driver's interface lays them out;
//! the offsets and sizes in the modules below are those of that layout.

use vstd::prelude::*;
use crate::error::Error;
use crate::buddy_alloc::{arenas_regular, arenas_tidy, arenas_wf, same_free_bytes};
use crate::memory::{
    allocate, allocation, free, lemma_allocate_then_free, lemma_allocate_then_free_lists,
    lemma_nonzero_serves, released,
};
use crate::shadow::{Shadow, ShadowView, field};
use crate::space::{
    Bytes, Memory, at, byte_at, copied, copy, lemma_results_land, lemma_round_trip, read_u32,
    same_bytes, u32_at,
};
use crate::i915::context::{drm_i915_gem_context_create_ext, drm_i915_gem_context_param};
use crate::i915::create_ext::prelim_drm_i915_gem_create_ext;
use crate::i915::execbuffer::drm_i915_gem_execbuffer2;
use crate::i915::pread::{
    drm_i915_gem_pread, drm_i915_gem_pwrite, transfer_allocated, transfer_copied, transfer_freed,
};
use crate::i915::pxp::prelim_drm_i915_pxp_ops;
use crate::i915::query::drm_i915_query;
use crate::i915::version::{drm_i915_getparam, drm_version, GETPARAM_VALUE_SIZE};
use crate::i915::vm::drm_i915_gem_vm_control;
use crate::shadow::freed_from;

pub mod asking;
pub mod chain;
pub mod context;
pub mod create_ext;
pub mod driven;
pub mod execbuffer;
pub mod loopback;
pub mod loopback_chains;
pub mod loopback_context;
pub mod loopback_create;
pub mod loopback_pxp;
pub mod loopback_query;
pub mod loopback_texts;
pub mod loopback_vm;
pub mod pread;
pub mod pxp;
pub mod query;
pub mod version;
pub mod vm;

verus! {

/// Closes a buffer object.
pub const DRM_IOCTL_GEM_CLOSE: u32 = 1074291721;

/// A protected-content operation.
pub const PRELIM_DRM_IOCTL_I915_PXP_OPS: u32 = 3222299794;

/// Creates a buffer object with extensions.
pub const DRM_IOCTL_I915_GEM_CREATE_EXT: u32 = 3222824027;

/// Queries the driver.
pub const DRM_IOCTL_I915_QUERY: u32 = 3222299769;

/// Reads a parameter of a context.
pub const DRM_IOCTL_I915_GEM_CONTEXT_GETPARAM: u32 = 3222824052;

/// Sets a parameter of a context.
pub const DRM_IOCTL_I915_GEM_CONTEXT_SETPARAM: u32 = 3222824053;

/// Reads the authentication token.
pub const DRM_IOCTL_GET_MAGIC: u32 = 2147771394;

/// Authenticates a token.
pub const DRM_IOCTL_AUTH_MAGIC: u32 = 1074029585;

/// Reads the version of the driver.
pub const DRM_IOCTL_VERSION: u32 = 3225445376;

/// Reads a parameter of the driver.
pub const DRM_IOCTL_I915_GETPARAM: u32 = 3222299718;

/// Creates a context with extensions.
pub const DRM_IOCTL_I915_GEM_CONTEXT_CREATE_EXT: u32 = 3222299757;

/// Creates an address space.
pub const DRM_IOCTL_I915_GEM_VM_CREATE: u32 = 3222299770;

/// Destroys an address space.
pub const DRM_IOCTL_I915_GEM_VM_DESTROY: u32 = 1074816123;

/// Reads the offset at which a buffer object can be mapped.
pub const DRM_IOCTL_I915_GEM_MMAP_OFFSET: u32 = 3223348324;

/// Reads the reset statistics of a context.
pub const DRM_IOCTL_I915_GET_RESET_STATS: u32 = 3222824050;

/// Reads the size of the aperture.
pub const DRM_IOCTL_I915_GEM_GET_APERTURE: u32 = 2148557923;

/// Sets the domain of a buffer object.
pub const DRM_IOCTL_I915_GEM_SET_DOMAIN: u32 = 1074553951;

/// Submits a batch buffer and reads results back.
pub const DRM_IOCTL_I915_GEM_EXECBUFFER2_WR: u32 = 3225445481;

/// Submits a batch buffer.
pub const DRM_IOCTL_I915_GEM_EXECBUFFER2: u32 = 1077961833;

/// Makes a buffer object of user memory.
pub const DRM_IOCTL_I915_GEM_USERPTR: u32 = 3222824051;

/// Reads the tiling of a buffer object.
pub const DRM_IOCTL_I915_GEM_GET_TILING: u32 = 3222299746;

/// Waits for a buffer object.
pub const DRM_IOCTL_I915_GEM_WAIT: u32 = 3222299756;

/// Destroys a context.
pub const DRM_IOCTL_I915_GEM_CONTEXT_DESTROY: u32 = 1074291822;

/// Reads a register.
pub const DRM_IOCTL_I915_REG_READ: u32 = 3222299761;

/// Asks whether a buffer object is busy.
pub const DRM_IOCTL_I915_GEM_BUSY: u32 = 3221775447;

/// Exports a buffer object as a file descriptor.
pub const DRM_IOCTL_PRIME_HANDLE_TO_FD: u32 = 3222037549;

/// Imports a buffer object from a file descriptor.
pub const DRM_IOCTL_PRIME_FD_TO_HANDLE: u32 = 3222037550;

/// Reads the pipe of a display controller.
pub const DRM_IOCTL_I915_GET_PIPE_FROM_CRTC_ID: u32 = 3221775461;

/// Finishes software access to a buffer object.
pub const DRM_IOCTL_I915_GEM_SW_FINISH: u32 = 1074029664;

/// Advises the driver on a buffer object.
pub const DRM_IOCTL_I915_GEM_MADVISE: u32 = 3222037606;

/// Reads from a buffer object.
pub const DRM_IOCTL_I915_GEM_PREAD: u32 = 1075864668;

/// Writes to a buffer object.
pub const DRM_IOCTL_I915_GEM_PWRITE: u32 = 1075864669;

/// Maps a buffer object.
pub const DRM_IOCTL_I915_GEM_MMAP: u32 = 3223872606;

/// Size of the argument that carries an authentication token.
pub const DRM_AUTH_SIZE: usize = 4;

/// Size of the argument of a map-offset request.
pub const DRM_I915_GEM_MMAP_OFFSET_SIZE: usize = 32;

/// Size of the argument that carries reset statistics.
pub const DRM_I915_RESET_STATS_SIZE: usize = 24;

/// Size of the argument that carries the size of the aperture.
pub const DRM_I915_GEM_GET_APERTURE_SIZE: usize = 16;

/// Size of the argument that sets a domain.
pub const DRM_I915_GEM_SET_DOMAIN_SIZE: usize = 12;

/// Size of the argument that makes a buffer object of user memory.
pub const DRM_I915_GEM_USERPTR_SIZE: usize = 24;

/// Size of the argument that carries a tiling.
pub const DRM_I915_GEM_GET_TILING_SIZE: usize = 16;

/// Size of the argument of a wait.
pub const DRM_I915_GEM_WAIT_SIZE: usize = 16;

/// Size of the argument that reads a register.
pub const DRM_I915_REG_READ_SIZE: usize = 16;

/// Size of the argument that asks whether a buffer object is busy.
pub const DRM_I915_GEM_BUSY_SIZE: usize = 8;

/// Size of the argument that exports or imports a buffer object.
pub const DRM_PRIME_HANDLE_SIZE: usize = 12;

/// Size of the argument that carries a pipe.
pub const DRM_I915_GET_PIPE_FROM_CRTC_ID_SIZE: usize = 8;

/// Size of the argument that finishes software access.
pub const DRM_I915_GEM_SW_FINISH_SIZE: usize = 4;

/// Size of the argument that advises the driver.
pub const DRM_I915_GEM_MADVISE_SIZE: usize = 12;

/// Size of the argument that maps a buffer object.
pub const DRM_I915_GEM_MMAP_SIZE: usize = 40;

/// The way in which a structure is copied.
#[allow(non_camel_case_types)]
#[derive(Debug, Clone, Copy, PartialEq, Eq, Structural)]
pub enum Direction {
    /// From the untrusted copy back to the trusted argument.
    u2t,
    /// From the trusted argument to its untrusted copy.
    t2u,
    /// Neither.
    none,
}

/// The argument that closes a buffer object: its handle, and padding. The
/// argument that destroys a context has the same layout.
#[allow(non_camel_case_types)]
#[derive(Debug, Clone, Copy, PartialEq, Eq, Structural)]
pub struct drm_gem_close_t {
    /// The handle of the buffer object.
    pub handle: u32,
    /// Padding.
    pub pad: u32,
}

impl drm_gem_close_t {
    /// Size of the argument.
    pub const SIZE: usize = 8;

    /// The structure at `addr` in `m`.
    pub open spec fn at(m: Bytes, addr: u64) -> drm_gem_close_t {
        drm_gem_close_t { handle: u32_at(m, addr), pad: u32_at(m, at(addr, 4)) }
    }

    /// Reads the structure at `addr`.
    pub fn load<M: Memory>(mem: &M, addr: u64) -> (c: drm_gem_close_t)
        ensures
            c == Self::at(mem.bytes(), addr),
    {
        drm_gem_close_t { handle: read_u32(mem, addr), pad: read_u32(mem, field(addr, 4)) }
    }
}

/// The structures that are mirrored with what lies behind them.
#[derive(Debug, Clone, Copy, PartialEq, Eq, Structural)]
pub enum Deep {
    /// A protected-content operation.
    PxpOps,
    /// The creation of a buffer object with extensions.
    GemCreateExt,
    /// A query.
    Query,
    /// A parameter of a context.
    ContextParam,
    /// The version of the driver.
    Version,
    /// A parameter of the driver.
    GetParam,
    /// The creation of a context with extensions.
    ContextCreateExt,
    /// The creation or destruction of an address space.
    VmControl,
    /// The submission of a batch buffer.
    ExecBuffer2,
    /// A read from a buffer object.
    Pread,
    /// A write to a buffer object.
    Pwrite,
}

/// How the argument of a command is mirrored.
#[derive(Debug, Clone, Copy, PartialEq, Eq, Structural)]
pub enum Marshaller {
    /// The argument is a structure of this many bytes without pointers that
    /// the marshaller follows: it is copied as it stands.
    Shallow(usize),
    /// The argument is mirrored with what lies behind it.
    Deep(Deep),
}

/// The marshaller of every command that has one.
pub open spec fn command_table(cmd: u32) -> Option<Marshaller> {
    if cmd == DRM_IOCTL_GEM_CLOSE {
        Some(Marshaller::Shallow(drm_gem_close_t::SIZE))
    } else if cmd == DRM_IOCTL_GET_MAGIC {
        Some(Marshaller::Shallow(DRM_AUTH_SIZE))
    } else if cmd == DRM_IOCTL_AUTH_MAGIC {
        Some(Marshaller::Shallow(DRM_AUTH_SIZE))
    } else if cmd == PRELIM_DRM_IOCTL_I915_PXP_OPS {
        Some(Marshaller::Deep(Deep::PxpOps))
    } else if cmd == DRM_IOCTL_I915_GEM_CREATE_EXT {
        Some(Marshaller::Deep(Deep::GemCreateExt))
    } else if cmd == DRM_IOCTL_I915_QUERY {
        Some(Marshaller::Deep(Deep::Query))
    } else if cmd == DRM_IOCTL_I915_GEM_CONTEXT_GETPARAM {
        Some(Marshaller::Deep(Deep::ContextParam))
    } else if cmd == DRM_IOCTL_I915_GEM_CONTEXT_SETPARAM {
        Some(Marshaller::Deep(Deep::ContextParam))
    } else if cmd == DRM_IOCTL_VERSION {
        Some(Marshaller::Deep(Deep::Version))
    } else if cmd == DRM_IOCTL_I915_GETPARAM {
        Some(Marshaller::Deep(Deep::GetParam))
    } else if cmd == DRM_IOCTL_I915_GEM_CONTEXT_CREATE_EXT {
        Some(Marshaller::Deep(Deep::ContextCreateExt))
    } else if cmd == DRM_IOCTL_I915_GEM_VM_CREATE {
        Some(Marshaller::Deep(Deep::VmControl))
    } else if cmd == DRM_IOCTL_I915_GEM_VM_DESTROY {
        Some(Marshaller::Deep(Deep::VmControl))
    } else if cmd == DRM_IOCTL_I915_GEM_MMAP_OFFSET {
        Some(Marshaller::Shallow(DRM_I915_GEM_MMAP_OFFSET_SIZE))
    } else if cmd == DRM_IOCTL_I915_GET_RESET_STATS {
        Some(Marshaller::Shallow(DRM_I915_RESET_STATS_SIZE))
    } else if cmd == DRM_IOCTL_I915_GEM_GET_APERTURE {
        Some(Marshaller::Shallow(DRM_I915_GEM_GET_APERTURE_SIZE))
    } else if cmd == DRM_IOCTL_I915_GEM_SET_DOMAIN {
        Some(Marshaller::Shallow(DRM_I915_GEM_SET_DOMAIN_SIZE))
    } else if cmd == DRM_IOCTL_I915_GEM_EXECBUFFER2_WR {
        Some(Marshaller::Deep(Deep::ExecBuffer2))
    } else if cmd == DRM_IOCTL_I915_GEM_EXECBUFFER2 {
        Some(Marshaller::Deep(Deep::ExecBuffer2))
    } else if cmd == DRM_IOCTL_I915_GEM_USERPTR {
        Some(Marshaller::Shallow(DRM_I915_GEM_USERPTR_SIZE))
    } else if cmd == DRM_IOCTL_I915_GEM_GET_TILING {
        Some(Marshaller::Shallow(DRM_I915_GEM_GET_TILING_SIZE))
    } else if cmd == DRM_IOCTL_I915_GEM_WAIT {
        Some(Marshaller::Shallow(DRM_I915_GEM_WAIT_SIZE))
    } else if cmd == DRM_IOCTL_I915_GEM_CONTEXT_DESTROY {
        Some(Marshaller::Shallow(drm_gem_close_t::SIZE))
    } else if cmd == DRM_IOCTL_I915_REG_READ {
        Some(Marshaller::Shallow(DRM_I915_REG_READ_SIZE))
    } else if cmd == DRM_IOCTL_I915_GEM_BUSY {
        Some(Marshaller::Shallow(DRM_I915_GEM_BUSY_SIZE))
    } else if cmd == DRM_IOCTL_PRIME_HANDLE_TO_FD {
        Some(Marshaller::Shallow(DRM_PRIME_HANDLE_SIZE))
    } else if cmd == DRM_IOCTL_PRIME_FD_TO_HANDLE {
        Some(Marshaller::Shallow(DRM_PRIME_HANDLE_SIZE))
    } else if cmd == DRM_IOCTL_I915_GET_PIPE_FROM_CRTC_ID {
        Some(Marshaller::Shallow(DRM_I915_GET_PIPE_FROM_CRTC_ID_SIZE))
    } else if cmd == DRM_IOCTL_I915_GEM_SW_FINISH {
        Some(Marshaller::Shallow(DRM_I915_GEM_SW_FINISH_SIZE))
    } else if cmd == DRM_IOCTL_I915_GEM_MADVISE {
        Some(Marshaller::Shallow(DRM_I915_GEM_MADVISE_SIZE))
    } else if cmd == DRM_IOCTL_I915_GEM_PREAD {
        Some(Marshaller::Deep(Deep::Pread))
    } else if cmd == DRM_IOCTL_I915_GEM_PWRITE {
        Some(Marshaller::Deep(Deep::Pwrite))
    } else if cmd == DRM_IOCTL_I915_GEM_MMAP {
        Some(Marshaller::Shallow(DRM_I915_GEM_MMAP_SIZE))
    } else {
        None
    }
}

/// Looks up the marshaller of `cmd`.
pub fn marshaller_of(cmd: u32) -> (r: Option<Marshaller>)
    ensures
        r == command_table(cmd),
{
    if cmd == DRM_IOCTL_GEM_CLOSE {
        Some(Marshaller::Shallow(drm_gem_close_t::SIZE))
    } else if cmd == DRM_IOCTL_GET_MAGIC {
        Some(Marshaller::Shallow(DRM_AUTH_SIZE))
    } else if cmd == DRM_IOCTL_AUTH_MAGIC {
        Some(Marshaller::Shallow(DRM_AUTH_SIZE))
    } else if cmd == PRELIM_DRM_IOCTL_I915_PXP_OPS {
        Some(Marshaller::Deep(Deep::PxpOps))
    } else if cmd == DRM_IOCTL_I915_GEM_CREATE_EXT {
        Some(Marshaller::Deep(Deep::GemCreateExt))
    } else if cmd == DRM_IOCTL_I915_QUERY {
        Some(Marshaller::Deep(Deep::Query))
    } else if cmd == DRM_IOCTL_I915_GEM_CONTEXT_GETPARAM {
        Some(Marshaller::Deep(Deep::ContextParam))
    } else if cmd == DRM_IOCTL_I915_GEM_CONTEXT_SETPARAM {
        Some(Marshaller::Deep(Deep::ContextParam))
    } else if cmd == DRM_IOCTL_VERSION {
        Some(Marshaller::Deep(Deep::Version))
    } else if cmd == DRM_IOCTL_I915_GETPARAM {
        Some(Marshaller::Deep(Deep::GetParam))
    } else if cmd == DRM_IOCTL_I915_GEM_CONTEXT_CREATE_EXT {
        Some(Marshaller::Deep(Deep::ContextCreateExt))
    } else if cmd == DRM_IOCTL_I915_GEM_VM_CREATE {
        Some(Marshaller::Deep(Deep::VmControl))
    } else if cmd == DRM_IOCTL_I915_GEM_VM_DESTROY {
        Some(Marshaller::Deep(Deep::VmControl))
    } else if cmd == DRM_IOCTL_I915_GEM_MMAP_OFFSET {
        Some(Marshaller::Shallow(DRM_I915_GEM_MMAP_OFFSET_SIZE))
    } else if cmd == DRM_IOCTL_I915_GET_RESET_STATS {
        Some(Marshaller::Shallow(DRM_I915_RESET_STATS_SIZE))
    } else if cmd == DRM_IOCTL_I915_GEM_GET_APERTURE {
        Some(Marshaller::Shallow(DRM_I915_GEM_GET_APERTURE_SIZE))
    } else if cmd == DRM_IOCTL_I915_GEM_SET_DOMAIN {
        Some(Marshaller::Shallow(DRM_I915_GEM_SET_DOMAIN_SIZE))
    } else if cmd == DRM_IOCTL_I915_GEM_EXECBUFFER2_WR {
        Some(Marshaller::Deep(Deep::ExecBuffer2))
    } else if cmd == DRM_IOCTL_I915_GEM_EXECBUFFER2 {
        Some(Marshaller::Deep(Deep::ExecBuffer2))
    } else if cmd == DRM_IOCTL_I915_GEM_USERPTR {
        Some(Marshaller::Shallow(DRM_I915_GEM_USERPTR_SIZE))
    } else if cmd == DRM_IOCTL_I915_GEM_GET_TILING {
        Some(Marshaller::Shallow(DRM_I915_GEM_GET_TILING_SIZE))
    } else if cmd == DRM_IOCTL_I915_GEM_WAIT {
        Some(Marshaller::Shallow(DRM_I915_GEM_WAIT_SIZE))
    } else if cmd == DRM_IOCTL_I915_GEM_CONTEXT_DESTROY {
        Some(Marshaller::Shallow(drm_gem_close_t::SIZE))
    } else if cmd == DRM_IOCTL_I915_REG_READ {
        Some(Marshaller::Shallow(DRM_I915_REG_READ_SIZE))
    } else if cmd == DRM_IOCTL_I915_GEM_BUSY {
        Some(Marshaller::Shallow(DRM_I915_GEM_BUSY_SIZE))
    } else if cmd == DRM_IOCTL_PRIME_HANDLE_TO_FD {
        Some(Marshaller::Shallow(DRM_PRIME_HANDLE_SIZE))
    } else if cmd == DRM_IOCTL_PRIME_FD_TO_HANDLE {
        Some(Marshaller::Shallow(DRM_PRIME_HANDLE_SIZE))
    } else if cmd == DRM_IOCTL_I915_GET_PIPE_FROM_CRTC_ID {
        Some(Marshaller::Shallow(DRM_I915_GET_PIPE_FROM_CRTC_ID_SIZE))
    } else if cmd == DRM_IOCTL_I915_GEM_SW_FINISH {
        Some(Marshaller::Shallow(DRM_I915_GEM_SW_FINISH_SIZE))
    } else if cmd == DRM_IOCTL_I915_GEM_MADVISE {
        Some(Marshaller::Shallow(DRM_I915_GEM_MADVISE_SIZE))
    } else if cmd == DRM_IOCTL_I915_GEM_PREAD {
        Some(Marshaller::Deep(Deep::Pread))
    } else if cmd == DRM_IOCTL_I915_GEM_PWRITE {
        Some(Marshaller::Deep(Deep::Pwrite))
    } else if cmd == DRM_IOCTL_I915_GEM_MMAP {
        Some(Marshaller::Shallow(DRM_I915_GEM_MMAP_SIZE))
    } else {
        None
    }
}

impl Deep {
    /// The size of the structure itself.
    pub open spec fn size(self) -> usize {
        match self {
            Deep::PxpOps => prelim_drm_i915_pxp_ops::SIZE,
            Deep::GemCreateExt => prelim_drm_i915_gem_create_ext::SIZE,
            Deep::Query => drm_i915_query::SIZE,
            Deep::ContextParam => drm_i915_gem_context_param::SIZE,
            Deep::Version => drm_version::SIZE,
            Deep::GetParam => drm_i915_getparam::SIZE,
            Deep::ContextCreateExt => drm_i915_gem_context_create_ext::SIZE,
            Deep::VmControl => drm_i915_gem_vm_control::SIZE,
            Deep::ExecBuffer2 => drm_i915_gem_execbuffer2::SIZE,
            Deep::Pread => drm_i915_gem_pread::SIZE,
            Deep::Pwrite => drm_i915_gem_pwrite::SIZE,
        }
    }

    /// The size of the structure itself.
    pub fn size_of(&self) -> (r: usize)
        ensures
            r == self.size(),
    {
        match self {
            Deep::PxpOps => prelim_drm_i915_pxp_ops::SIZE,
            Deep::GemCreateExt => prelim_drm_i915_gem_create_ext::SIZE,
            Deep::Query => drm_i915_query::SIZE,
            Deep::ContextParam => drm_i915_gem_context_param::SIZE,
            Deep::Version => drm_version::SIZE,
            Deep::GetParam => drm_i915_getparam::SIZE,
            Deep::ContextCreateExt => drm_i915_gem_context_create_ext::SIZE,
            Deep::VmControl => drm_i915_gem_vm_control::SIZE,
            Deep::ExecBuffer2 => drm_i915_gem_execbuffer2::SIZE,
            Deep::Pread => drm_i915_gem_pread::SIZE,
            Deep::Pwrite => drm_i915_gem_pwrite::SIZE,
        }
    }

    /// What the alloc phase of the structure does for the argument at `src`
    /// in the trusted memory `t` and its copy at `dst`.
    #[verifier::opaque]
    pub open spec fn allocated(self, h: ShadowView, dst: u64, t: Bytes, src: u64) -> (
        Result<(), Error>,
        ShadowView,
    ) {
        match self {
            Deep::PxpOps => prelim_drm_i915_pxp_ops::allocated(h, dst, t, src),
            Deep::GemCreateExt => prelim_drm_i915_gem_create_ext::allocated(h, dst, t, src),
            Deep::Query => drm_i915_query::allocated(h, dst, t, src),
            Deep::ContextParam => drm_i915_gem_context_param::allocated(h, dst, t, src),
            Deep::Version => drm_version::allocated(h, dst, t, src),
            Deep::GetParam => drm_i915_getparam::allocated(h, dst),
            Deep::ContextCreateExt => drm_i915_gem_context_create_ext::allocated(h, dst, t, src),
            Deep::VmControl => drm_i915_gem_vm_control::allocated(h, dst, t, src),
            Deep::ExecBuffer2 => drm_i915_gem_execbuffer2::allocated(h, dst, t, src),
            Deep::Pread => transfer_allocated(h, dst, t, src),
            Deep::Pwrite => transfer_allocated(h, dst, t, src),
        }
    }

    /// Runs the alloc phase of the structure.
    pub fn allocate<T: Memory, U: Memory>(
        &self,
        host: &mut Shadow<U>,
        dst: u64,
        trusted: &T,
        src: u64,
    ) -> (r: Result<(), Error>)
        requires
            old(host).wf(),
        ensures
            final(host).wf(),
            (r, final(host)@) == self.allocated(old(host)@, dst, trusted.bytes(), src),
    {
        reveal(Deep::allocated);
        match self {
            Deep::PxpOps => prelim_drm_i915_pxp_ops::allocate(host, dst, trusted, src),
            Deep::GemCreateExt => prelim_drm_i915_gem_create_ext::allocate(host, dst, trusted, src),
            Deep::Query => drm_i915_query::allocate(host, dst, trusted, src),
            Deep::ContextParam => drm_i915_gem_context_param::allocate(host, dst, trusted, src),
            Deep::Version => drm_version::allocate(host, dst, trusted, src),
            Deep::GetParam => drm_i915_getparam::allocate(host, dst, trusted, src),
            Deep::ContextCreateExt => drm_i915_gem_context_create_ext::allocate(
                host,
                dst,
                trusted,
                src,
            ),
            Deep::VmControl => drm_i915_gem_vm_control::allocate(host, dst, trusted, src),
            Deep::ExecBuffer2 => drm_i915_gem_execbuffer2::allocate(host, dst, trusted, src),
            Deep::Pread => drm_i915_gem_pread::allocate(host, dst, trusted, src),
            Deep::Pwrite => drm_i915_gem_pwrite::allocate(host, dst, trusted, src),
        }
    }

    /// What a copy of the structure at `src` in `s` to the one at `dst` in `d`
    /// does.
    #[verifier::opaque]
    pub open spec fn copy_result(
        self,
        d: Bytes,
        dst: u64,
        s: Bytes,
        src: u64,
        direction: Direction,
    ) -> (Result<(), Error>, Bytes) {
        match self {
            Deep::PxpOps => (
                Ok(()),
                prelim_drm_i915_pxp_ops::copy_result(d, dst, s, src, direction),
            ),
            Deep::GemCreateExt => prelim_drm_i915_gem_create_ext::copy_result(d, dst, s, src),
            Deep::Query => drm_i915_query::copy_result(d, dst, s, src, direction),
            Deep::ContextParam => drm_i915_gem_context_param::copy_result(
                d,
                dst,
                s,
                src,
                direction,
            ),
            Deep::Version => (Ok(()), drm_version::copy_result(d, dst, s, src, direction)),
            Deep::GetParam => (Ok(()), drm_i915_getparam::copy_result(d, dst, s, src)),
            Deep::ContextCreateExt => drm_i915_gem_context_create_ext::copy_result(d, dst, s, src),
            Deep::VmControl => drm_i915_gem_vm_control::copy_result(d, dst, s, src),
            Deep::ExecBuffer2 => drm_i915_gem_execbuffer2::copy_result(d, dst, s, src),
            Deep::Pread => (Ok(()), transfer_copied(d, dst, s, src, direction == Direction::u2t)),
            Deep::Pwrite => (Ok(()), transfer_copied(d, dst, s, src, direction == Direction::t2u)),
        }
    }

    /// Copies the structure at `src` to the one at `dst`, with what lies
    /// behind it.
    pub fn copy<D: Memory, S: Memory>(
        &self,
        dst_mem: &mut D,
        dst: u64,
        src_mem: &S,
        src: u64,
        direction: Direction,
    ) -> (r: Result<(), Error>)
        ensures
            (r, final(dst_mem).bytes()) == self.copy_result(
                old(dst_mem).bytes(),
                dst,
                src_mem.bytes(),
                src,
                direction,
            ),
    {
        reveal(Deep::copy_result);
        match self {
            Deep::PxpOps => prelim_drm_i915_pxp_ops::copy(dst_mem, dst, src_mem, src, direction),
            Deep::GemCreateExt => prelim_drm_i915_gem_create_ext::copy(
                dst_mem,
                dst,
                src_mem,
                src,
                direction,
            ),
            Deep::Query => drm_i915_query::copy(dst_mem, dst, src_mem, src, direction),
            Deep::ContextParam => drm_i915_gem_context_param::copy(
                dst_mem,
                dst,
                src_mem,
                src,
                direction,
            ),
            Deep::Version => drm_version::copy(dst_mem, dst, src_mem, src, direction),
            Deep::GetParam => drm_i915_getparam::copy(dst_mem, dst, src_mem, src, direction),
            Deep::ContextCreateExt => drm_i915_gem_context_create_ext::copy(
                dst_mem,
                dst,
                src_mem,
                src,
                direction,
            ),
            Deep::VmControl => drm_i915_gem_vm_control::copy(dst_mem, dst, src_mem, src, direction),
            Deep::ExecBuffer2 => drm_i915_gem_execbuffer2::copy(
                dst_mem,
                dst,
                src_mem,
                src,
                direction,
            ),
            Deep::Pread => drm_i915_gem_pread::copy(dst_mem, dst, src_mem, src, direction),
            Deep::Pwrite => drm_i915_gem_pwrite::copy(dst_mem, dst, src_mem, src, direction),
        }
    }

    /// What the free phase of the structure does for the copy at `addr`.
    #[verifier::opaque]
    pub open spec fn freed(self, h: ShadowView, addr: u64) -> (Result<(), Error>, ShadowView) {
        match self {
            Deep::PxpOps => prelim_drm_i915_pxp_ops::freed(h, addr),
            Deep::GemCreateExt => prelim_drm_i915_gem_create_ext::freed(h, addr),
            Deep::Query => drm_i915_query::freed(h, addr),
            Deep::ContextParam => drm_i915_gem_context_param::freed(h, addr),
            Deep::Version => (Ok(()), drm_version::freed(h, addr)),
            Deep::GetParam => (Ok(()), freed_from(h, at(addr, 8), GETPARAM_VALUE_SIZE)),
            Deep::ContextCreateExt => drm_i915_gem_context_create_ext::freed(h, addr),
            Deep::VmControl => drm_i915_gem_vm_control::freed(h, addr),
            Deep::ExecBuffer2 => drm_i915_gem_execbuffer2::freed(h, addr),
            Deep::Pread => (Ok(()), transfer_freed(h, addr)),
            Deep::Pwrite => (Ok(()), transfer_freed(h, addr)),
        }
    }

    /// Runs the free phase of the structure.
    pub fn free<U: Memory>(&self, host: &mut Shadow<U>, addr: u64) -> (r: Result<(), Error>)
        requires
            old(host).wf(),
        ensures
            final(host).wf(),
            (r, final(host)@) == self.freed(old(host)@, addr),
    {
        reveal(Deep::freed);
        match self {
            Deep::PxpOps => prelim_drm_i915_pxp_ops::free(host, addr),
            Deep::GemCreateExt => prelim_drm_i915_gem_create_ext::free(host, addr),
            Deep::Query => drm_i915_query::free(host, addr),
            Deep::ContextParam => drm_i915_gem_context_param::free(host, addr),
            Deep::Version => drm_version::free(host, addr),
            Deep::GetParam => drm_i915_getparam::free(host, addr),
            Deep::ContextCreateExt => drm_i915_gem_context_create_ext::free(host, addr),
            Deep::VmControl => drm_i915_gem_vm_control::free(host, addr),
            Deep::ExecBuffer2 => drm_i915_gem_execbuffer2::free(host, addr),
            Deep::Pread => drm_i915_gem_pread::free(host, addr),
            Deep::Pwrite => drm_i915_gem_pwrite::free(host, addr),
        }
    }
}

/// What the first half of a shallow call does: the argument of `size` bytes
/// at `arg` gets a copy in untrusted memory, whose address is returned.
pub open spec fn exec_result(h: ShadowView, t: Bytes, size: usize, arg: u64) -> (
    Result<u64, Error>,
    ShadowView,
) {
    match allocation(h.arenas, size).0 {
        Ok(ptr) => (
            Ok(ptr),
            ShadowView {
                arenas: allocation(h.arenas, size).1,
                bytes: copied(h.bytes, ptr, t, arg, size as nat),
            },
        ),
        Err(e) => (Err(e), h),
    }
}

/// The first half of a shallow call: copies the argument of `size` bytes at
/// `arg` into a new block of untrusted memory and returns its address, to be
/// handed to the host's ioctl.
pub fn exec<T: Memory, U: Memory>(host: &mut Shadow<U>, trusted: &T, size: usize, arg: u64) -> (r:
    Result<u64, Error>)
    requires
        old(host).wf(),
    ensures
        final(host).wf(),
        (r, final(host)@) == exec_result(old(host)@, trusted.bytes(), size, arg),
{
    proof {
        lemma_nonzero_serves(host.manager@, size);
    }
    let ptr_u: u64 = allocate(&mut host.manager, size)?;
    copy(&mut host.memory, ptr_u, trusted, arg, size);
    Ok(ptr_u)
}

/// The second half of a shallow call: copies the `size` bytes of the copy at
/// `ptr_u` back to the argument at `arg` and gives the copy up.
pub fn exec_finish<T: Memory, U: Memory>(
    host: &mut Shadow<U>,
    trusted: &mut T,
    size: usize,
    arg: u64,
    ptr_u: u64,
) -> (r: Result<(), Error>)
    requires
        old(host).wf(),
    ensures
        final(host).wf(),
        r == Ok::<(), Error>(()),
        final(trusted).bytes() == copied(
            old(trusted).bytes(),
            arg,
            old(host)@.bytes,
            ptr_u,
            size as nat,
        ),
        final(host)@ == (ShadowView {
            arenas: released(old(host)@.arenas, ptr_u, size),
            bytes: old(host)@.bytes,
        }),
{
    copy(trusted, arg, &host.memory, ptr_u, size);
    free(&mut host.manager, ptr_u, size)
}

/// What the first half of a deep call does: the argument at `arg` gets a copy
/// in untrusted memory, the alloc phase gives the copy what lies behind the
/// argument, and the argument is copied out. Where a step fails, the arenas
/// are as they were before the call.
pub open spec fn exec2_result(kind: Deep, h: ShadowView, t: Bytes, arg: u64) -> (
    Result<u64, Error>,
    ShadowView,
) {
    match allocation(h.arenas, kind.size()).0 {
        Err(e) => (Err(e), h),
        Ok(ptr) => {
            let (r1, h1) = kind.allocated(
                ShadowView { arenas: allocation(h.arenas, kind.size()).1, bytes: h.bytes },
                ptr,
                t,
                arg,
            );
            match r1 {
                Err(e) => (Err(e), ShadowView { arenas: h.arenas, bytes: h1.bytes }),
                Ok(_) => {
                    let (r2, b2) = kind.copy_result(h1.bytes, ptr, t, arg, Direction::t2u);
                    match r2 {
                        Err(e) => (Err(e), ShadowView { arenas: h.arenas, bytes: b2 }),
                        Ok(_) => (Ok(ptr), ShadowView { arenas: h1.arenas, bytes: b2 }),
                    }
                },
            }
        },
    }
}

/// The first half of a deep call: mirrors the argument at `arg` and what lies
/// behind it into untrusted memory and returns the address of the copy, to be
/// handed to the host's ioctl. Where a step fails, whatever was allocated is
/// given back.
pub fn exec2<T: Memory, U: Memory>(host: &mut Shadow<U>, trusted: &T, kind: Deep, arg: u64) -> (r:
    Result<u64, Error>)
    requires
        old(host).wf(),
    ensures
        final(host).wf(),
        (r, final(host)@) == exec2_result(kind, old(host)@, trusted.bytes(), arg),
{
    let saved = host.manager.snapshot();
    proof {
        lemma_nonzero_serves(host.manager@, kind.size());
    }
    let ptr_u: u64 = allocate(&mut host.manager, kind.size_of())?;
    match kind.allocate(host, ptr_u, trusted, arg) {
        Err(e) => {
            host.manager = saved;
            Err(e)
        },
        Ok(_) => match kind.copy(&mut host.memory, ptr_u, trusted, arg, Direction::t2u) {
            Err(e) => {
                host.manager = saved;
                Err(e)
            },
            Ok(_) => Ok(ptr_u),
        },
    }
}

/// What the second half of a deep call does to the trusted memory `t` and to
/// the untrusted side: the results are copied back, the free phase gives up
/// what lies behind the copy, and the copy itself is given up. The first step
/// that fails ends the call.
pub open spec fn exec2_finished(kind: Deep, t: Bytes, arg: u64, h: ShadowView, ptr: u64) -> (
    Result<(), Error>,
    Bytes,
    ShadowView,
) {
    let (r1, t1) = kind.copy_result(t, arg, h.bytes, ptr, Direction::u2t);
    if r1 is Err {
        (r1, t1, h)
    } else {
        let (r2, h2) = kind.freed(h, ptr);
        if r2 is Err {
            (r2, t1, h2)
        } else {
            (
                Ok(()),
                t1,
                ShadowView { arenas: released(h2.arenas, ptr, kind.size()), bytes: h2.bytes },
            )
        }
    }
}

/// The second half of a deep call: copies the results from the copy at
/// `ptr_u` back to the argument at `arg` and gives the copy up, with what
/// lies behind it.
pub fn exec2_finish<T: Memory, U: Memory>(
    host: &mut Shadow<U>,
    trusted: &mut T,
    kind: Deep,
    arg: u64,
    ptr_u: u64,
) -> (r: Result<(), Error>)
    requires
        old(host).wf(),
    ensures
        final(host).wf(),
        (r, final(trusted).bytes(), final(host)@) == exec2_finished(
            kind,
            old(trusted).bytes(),
            arg,
            old(host)@,
            ptr_u,
        ),
{
    kind.copy(trusted, arg, &host.memory, ptr_u, Direction::u2t)?;
    kind.free(host, ptr_u)?;
    free(&mut host.manager, ptr_u, kind.size_of())
}

/// The first half of the call that makes a buffer object of user memory. The
/// memory that the argument names stays where it is.
pub fn i915_gem_userptr_ioctl<T: Memory, U: Memory>(host: &mut Shadow<U>, trusted: &T, arg: u64) -> (r:
    Result<u64, Error>)
    requires
        old(host).wf(),
    ensures
        final(host).wf(),
        (r, final(host)@) == exec_result(
            old(host)@,
            trusted.bytes(),
            DRM_I915_GEM_USERPTR_SIZE,
            arg,
        ),
{
    exec(host, trusted, DRM_I915_GEM_USERPTR_SIZE, arg)
}

/// The answer to a command that has no marshaller: the command is never
/// handed to the host.
pub fn drm_default_ioctl(fd: i32, cmd: u32, arg: u64) -> (r: Result<i32, Error>)
    ensures
        r == Err::<i32, Error>(Error::UnsupportedIoctl(cmd)),
{
    Err(Error::UnsupportedIoctl(cmd))
}

/// A call that is ready for the host: what to hand to the host's ioctl, and
/// what it takes to finish the call afterwards.
#[derive(Debug, Clone, Copy, PartialEq, Eq, Structural)]
pub struct Call {
    /// The file descriptor of the device.
    pub fd: i32,
    /// The command.
    pub cmd: u32,
    /// The address of the argument in trusted memory.
    pub arg: u64,
    /// The address of its copy in untrusted memory: the argument for the
    /// host's ioctl.
    pub shadow: u64,
    /// How the argument is mirrored.
    pub marshaller: Marshaller,
}

/// What the first half of the call of `cmd` does.
pub open spec fn prepared(m: Marshaller, h: ShadowView, t: Bytes, arg: u64) -> (
    Result<u64, Error>,
    ShadowView,
) {
    match m {
        Marshaller::Shallow(size) => exec_result(h, t, size, arg),
        Marshaller::Deep(kind) => exec2_result(kind, h, t, arg),
    }
}

/// What the second half of a call does.
pub open spec fn finished(m: Marshaller, t: Bytes, arg: u64, h: ShadowView, ptr: u64) -> (
    Result<(), Error>,
    Bytes,
    ShadowView,
) {
    match m {
        Marshaller::Shallow(size) => (
            Ok(()),
            copied(t, arg, h.bytes, ptr, size as nat),
            ShadowView { arenas: released(h.arenas, ptr, size), bytes: h.bytes },
        ),
        Marshaller::Deep(kind) => exec2_finished(kind, t, arg, h, ptr),
    }
}

/// What the driver leaves in the copy of a shallow argument lands at the
/// same place of the trusted argument.
pub proof fn lemma_shallow_results_land(
    t: Bytes,
    arg: u64,
    h: ShadowView,
    ptr: u64,
    size: usize,
    i: int,
)
    requires
        0 <= i < size,
    ensures
        byte_at(finished(Marshaller::Shallow(size), t, arg, h, ptr).1, at(arg, i)) == byte_at(
            h.bytes,
            at(ptr, i),
        ),
{
    lemma_results_land(t, arg, h.bytes, ptr, size as nat, i);
}

/// A shallow call whose copy the driver leaves as it finds it leaves the
/// trusted memory as it was.
pub proof fn lemma_shallow_round_trip(h: ShadowView, t: Bytes, size: usize, arg: u64)
    requires
        exec_result(h, t, size, arg).0 is Ok,
    ensures
        ({
            let (ptr, mirrored) = exec_result(h, t, size, arg);
            same_bytes(finished(Marshaller::Shallow(size), t, arg, mirrored, ptr->Ok_0).1, t)
        }),
{
    let ptr = allocation(h.arenas, size).0->Ok_0;
    lemma_round_trip(t, arg, h.bytes, ptr, size as nat);
}

/// A shallow call gives back what it allocated, whatever the driver writes
/// to untrusted memory in between: with tidy, regular arenas, the free bytes
/// after the call are those before it.
pub proof fn lemma_shallow_no_leak(h: ShadowView, t: Bytes, size: usize, arg: u64, driven: Bytes)
    requires
        arenas_wf(h.arenas),
        arenas_tidy(h.arenas),
        arenas_regular(h.arenas),
        exec_result(h, t, size, arg).0 is Ok,
    ensures
        ({
            let (ptr, mirrored) = exec_result(h, t, size, arg);
            let after = finished(
                Marshaller::Shallow(size),
                t,
                arg,
                ShadowView { arenas: mirrored.arenas, bytes: driven },
                ptr->Ok_0,
            ).2;
            &&& arenas_wf(after.arenas)
            &&& arenas_tidy(after.arenas)
            &&& arenas_regular(after.arenas)
            &&& same_free_bytes(after.arenas, h.arenas)
        }),
{
    lemma_allocate_then_free(h.arenas, size);
}

/// A shallow call leaves arenas that share no byte and are regular exactly
/// as they were, whatever the driver writes to untrusted memory in between:
/// every free list of every arena holds the same blocks at the same places.
pub proof fn lemma_shallow_restores(h: ShadowView, t: Bytes, size: usize, arg: u64, driven: Bytes)
    requires
        arenas_wf(h.arenas),
        arenas_regular(h.arenas),
        exec_result(h, t, size, arg).0 is Ok,
    ensures
        ({
            let (ptr, mirrored) = exec_result(h, t, size, arg);
            finished(
                Marshaller::Shallow(size),
                t,
                arg,
                ShadowView { arenas: mirrored.arenas, bytes: driven },
                ptr->Ok_0,
            ).2.arenas == h.arenas
        }),
{
    lemma_allocate_then_free_lists(h.arenas, size);
}

/// The first half of an ioctl: looks up the marshaller of `cmd` and mirrors
/// the argument at `arg` into untrusted memory. The call that is returned
/// names what to hand to the host's ioctl. A command without marshaller is
/// refused, and nothing is touched.
pub fn pxp_ioctl<T: Memory, U: Memory>(
    host: &mut Shadow<U>,
    trusted: &T,
    fd: i32,
    cmd: u32,
    arg: u64,
) -> (r: Result<Call, Error>)
    requires
        old(host).wf(),
    ensures
        final(host).wf(),
        match command_table(cmd) {
            None => r == Err::<Call, Error>(Error::UnsupportedIoctl(cmd)) && final(host)@ == old(
                host,
            )@,
            Some(m) => {
                let (shadow, after) = prepared(m, old(host)@, trusted.bytes(), arg);
                &&& final(host)@ == after
                &&& match shadow {
                    Ok(ptr) => r == Ok::<Call, Error>(
                        Call { fd, cmd, arg, shadow: ptr, marshaller: m },
                    ),
                    Err(e) => r == Err::<Call, Error>(e),
                }
            },
        },
{
    match marshaller_of(cmd) {
        None => match drm_default_ioctl(fd, cmd, arg) {
            Err(e) => Err(e),
            Ok(_) => Err(Error::UnsupportedIoctl(cmd)),
        },
        Some(marshaller) => {
            let shadow: u64 = match marshaller {
                Marshaller::Shallow(size) => exec(host, trusted, size, arg)?,
                Marshaller::Deep(kind) => exec2(host, trusted, kind, arg)?,
            };
            Ok(Call { fd, cmd, arg, shadow, marshaller })
        },
    }
}

/// The second half of an ioctl, after the host's ioctl has returned `ret`:
/// copies the results back to the argument, gives the copy up and returns
/// `ret` as it came.
pub fn pxp_ioctl_finish<T: Memory, U: Memory>(
    host: &mut Shadow<U>,
    trusted: &mut T,
    call: &Call,
    ret: i32,
) -> (r: Result<i32, Error>)
    requires
        old(host).wf(),
    ensures
        final(host).wf(),
        ({
            let (done, t, after) = finished(
                call.marshaller,
                old(trusted).bytes(),
                call.arg,
                old(host)@,
                call.shadow,
            );
            &&& final(trusted).bytes() == t
            &&& final(host)@ == after
            &&& match done {
                Ok(_) => r == Ok::<i32, Error>(ret),
                Err(e) => r == Err::<i32, Error>(e),
            }
        }),
{
    match call.marshaller {
        Marshaller::Shallow(size) => exec_finish(host, trusted, size, call.arg, call.shadow)?,
        Marshaller::Deep(kind) => exec2_finish(host, trusted, kind, call.arg, call.shadow)?,
    }
    Ok(ret)
}

} // verus!
