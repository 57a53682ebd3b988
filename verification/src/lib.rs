//! Trusted-side shim that mediates i915 graphics ioctls between an enclave and
//! the host kernel: a buddy allocator over host-shared arenas, and the
//! marshalling engine that mirrors ioctl argument graphs into that memory.

pub mod buddy_alloc;
pub mod error;
pub mod history;
pub mod holdings;
pub mod i915;
pub mod memory;
pub mod shadow;
pub mod space;

pub use i915::pxp_ioctl;
