//! Chains of extensions.
//!
//! An extension begins with a header: the address of the next extension, or
//! zero at the end of the chain; a name, whose low 16 bits select the layout of
//! what follows the header; flags; and four reserved words. A marshaller walks
//! the chain of the source and the chain of the destination side by side.

use vstd::prelude::*;
use crate::error::Error;
use crate::memory::released;
use crate::shadow::{ShadowView, allocated_into};
use crate::space::{
    Bytes, Memory, at, byte_at, copied, copy, lemma_copied_byte, lemma_same_u64, lemma_u64_bytes,
    lemma_with_u64, offset, same_bytes, u64_at, with_u64, within, write_u64,
};
use crate::shadow::field;

verus! {

/// The bits of a name that select a layout.
pub const PRELIM_I915_USER_EXT_MASK: u32 = 0xffff;

/// The number of extensions after which a chain counts as endless.
pub const CHAIN_LIMIT: u64 = u64::MAX;

/// The header of an extension.
#[allow(non_camel_case_types)]
pub struct i915_user_extension {}

/// Offset of the address of the next extension.
pub const EXT_NEXT: u64 = 0;

/// Offset of the name.
pub const EXT_NAME: u64 = 8;

/// The memory `d` after the extension of `size` bytes at `src` in `s` has
/// been copied whole to the extension at `node`, which keeps its place in its
/// own chain: the address of its next extension stays what it is in `d`.
pub open spec fn whole_copied(d: Bytes, node: u64, s: Bytes, src: u64, size: nat) -> Bytes {
    with_u64(copied(d, node, s, src, size), node, u64_at(d, node))
}

/// A whole copy replaces the bytes of the destination after the address of
/// its next extension by the bytes at the same place of the source, and
/// touches no other byte.
pub proof fn lemma_whole_copied(d: Bytes, node: u64, s: Bytes, src: u64, size: nat, a: u64)
    requires
        8 <= size <= 0x1_0000_0000_0000_0000,
    ensures
        byte_at(whole_copied(d, node, s, src, size), a) == if within(node, size as int, a)
            && !within(node, 8, a) {
            byte_at(s, at(src, offset(node, a)))
        } else {
            byte_at(d, a)
        },
{
    let moved = copied(d, node, s, src, size);
    lemma_copied_byte(d, node, s, src, size, a);
    lemma_with_u64(moved, node, u64_at(d, node));
    if within(node, 8, a) {
        lemma_u64_bytes(moved, d, node, offset(node, a));
        crate::space::lemma_offset(node, a, offset(node, a));
    }
}

/// Copying an extension whole a second time changes nothing: the image of an
/// extension that was copied is the image that copying it gives.
pub proof fn lemma_whole_copied_twice(d: Bytes, node: u64, s: Bytes, src: u64, size: nat)
    requires
        8 <= size <= 0x1_0000_0000_0000_0000,
    ensures
        same_bytes(
            whole_copied(whole_copied(d, node, s, src, size), node, s, src, size),
            whole_copied(d, node, s, src, size),
        ),
        u64_at(whole_copied(d, node, s, src, size), node) == u64_at(d, node),
{
    let once = whole_copied(d, node, s, src, size);
    assert forall|a: u64| byte_at(whole_copied(once, node, s, src, size), a) == byte_at(once, a) by {
        lemma_whole_copied(once, node, s, src, size, a);
        lemma_whole_copied(d, node, s, src, size, a);
    }
    lemma_with_u64(copied(d, node, s, src, size), node, u64_at(d, node));
}

/// How the size of an extension is read off the memory that holds it.
pub type SizeOf = spec_fn(Bytes, u64) -> Result<usize, Error>;

/// What copying a chain of extensions that are copied whole does: from the
/// extension at `src` on, every extension of the source is copied to the
/// extension to which the pointer at `slot` points, and the walk goes on
/// with the next extension of either chain, until the chain of the source
/// ends, a size cannot be read, or `fuel` extensions have been copied.
pub open spec fn plain_chain_copied(
    size_of: SizeOf,
    d: Bytes,
    slot: u64,
    s: Bytes,
    src: u64,
    fuel: nat,
) -> (Result<(), Error>, Bytes)
    decreases fuel,
{
    if src == 0 {
        (Ok(()), d)
    } else if fuel == 0 {
        (Err(Error::EndlessChain), d)
    } else {
        match size_of(s, src) {
            Err(e) => (Err(e), d),
            Ok(size) => {
                let d1 = whole_copied(d, u64_at(d, slot), s, src, size as nat);
                plain_chain_copied(size_of, d1, u64_at(d1, slot), s, u64_at(s, src), (fuel - 1) as nat)
            },
        }
    }
}

/// What the alloc phase does for one extension that is copied whole: the
/// pointer at `slot` gets a new extension of the size of the source, which
/// ends the chain.
pub open spec fn plain_node_allocated(size_of: SizeOf, h: ShadowView, slot: u64, t: Bytes, src: u64) -> (
    Result<(), Error>,
    ShadowView,
) {
    match size_of(t, src) {
        Err(e) => (Err(e), h),
        Ok(size) => {
            let (r1, h1) = allocated_into(h, slot, size);
            if r1 is Err {
                (r1, h1)
            } else {
                (
                    Ok(()),
                    ShadowView {
                        arenas: h1.arenas,
                        bytes: with_u64(h1.bytes, u64_at(h1.bytes, slot), 0),
                    },
                )
            }
        },
    }
}

/// What the alloc phase does for a chain of extensions that are copied
/// whole: from the extension at `src` on, every extension of the source gets
/// a copy, each linked to the one before, until the chain of the source
/// ends or a step fails.
pub open spec fn plain_chain_allocated(
    size_of: SizeOf,
    h: ShadowView,
    slot: u64,
    t: Bytes,
    src: u64,
    fuel: nat,
) -> (Result<(), Error>, ShadowView)
    decreases fuel,
{
    if src == 0 {
        (Ok(()), h)
    } else if fuel == 0 {
        (Err(Error::EndlessChain), h)
    } else {
        let (r, h1) = plain_node_allocated(size_of, h, slot, t, src);
        if r is Err {
            (r, h1)
        } else {
            plain_chain_allocated(
                size_of,
                h1,
                u64_at(h1.bytes, slot),
                t,
                u64_at(t, src),
                (fuel - 1) as nat,
            )
        }
    }
}

/// What the free phase does for a chain of extensions that are copied whole:
/// from the extension at `ext` on, every extension is given back, in its own
/// size, until the chain ends or a size cannot be read.
pub open spec fn plain_chain_freed(size_of: SizeOf, h: ShadowView, ext: u64, fuel: nat) -> (
    Result<(), Error>,
    ShadowView,
)
    decreases fuel,
{
    if ext == 0 {
        (Ok(()), h)
    } else if fuel == 0 {
        (Err(Error::EndlessChain), h)
    } else {
        match size_of(h.bytes, ext) {
            Err(e) => (Err(e), h),
            Ok(size) => plain_chain_freed(
                size_of,
                ShadowView { arenas: released(h.arenas, ext, size), bytes: h.bytes },
                u64_at(h.bytes, ext),
                (fuel - 1) as nat,
            ),
        }
    }
}

/// Whether `a` is a byte of the extension of `size` bytes at `node` after the
/// address of its next extension.
pub open spec fn in_body(node: u64, size: usize, a: u64) -> bool {
    within(node, size as int, a) && !within(node, 8, a)
}

/// Whether copying the chain may write the byte at `a`: whether `a` lies in
/// the body of one of the extensions of the destination.
pub open spec fn touched(size_of: SizeOf, d: Bytes, slot: u64, s: Bytes, src: u64, fuel: nat, a: u64) -> bool
    decreases fuel,
{
    if src == 0 || fuel == 0 {
        false
    } else {
        match size_of(s, src) {
            Err(_) => false,
            Ok(size) => {
                let d1 = whole_copied(d, u64_at(d, slot), s, src, size as nat);
                in_body(u64_at(d, slot), size, a) || touched(
                    size_of,
                    d1,
                    u64_at(d1, slot),
                    s,
                    u64_at(s, src),
                    (fuel - 1) as nat,
                    a,
                )
            },
        }
    }
}

/// Whether the chain of the destination is laid out so that its extensions
/// stay out of each other's way: the pointer to an extension lies outside the
/// body of that extension, and no later extension has a byte of its body in
/// the body of an earlier one or in the pointer to it.
pub open spec fn laid_out(size_of: SizeOf, d: Bytes, slot: u64, s: Bytes, src: u64, fuel: nat) -> bool
    decreases fuel,
{
    if src == 0 || fuel == 0 {
        true
    } else {
        match size_of(s, src) {
            Err(_) => true,
            Ok(size) => {
                let node = u64_at(d, slot);
                let d1 = whole_copied(d, node, s, src, size as nat);
                &&& 8 <= size
                &&& forall|a: u64| within(slot, 8, a) ==> !in_body(node, size, a)
                &&& laid_out(size_of, d1, u64_at(d1, slot), s, u64_at(s, src), (fuel - 1) as nat)
                &&& forall|a: u64| #[trigger]
                    touched(size_of, d1, u64_at(d1, slot), s, u64_at(s, src), (fuel - 1) as nat, a)
                        ==> !in_body(node, size, a) && !within(slot, 8, a)
            },
        }
    }
}

/// Copying a chain writes no byte outside the bodies of the extensions of
/// the destination.
pub proof fn lemma_chain_frame(size_of: SizeOf, d: Bytes, slot: u64, s: Bytes, src: u64, fuel: nat, a: u64)
    requires
        laid_out(size_of, d, slot, s, src, fuel),
        !touched(size_of, d, slot, s, src, fuel, a),
    ensures
        byte_at(plain_chain_copied(size_of, d, slot, s, src, fuel).1, a) == byte_at(d, a),
    decreases fuel,
{
    if src != 0 && fuel != 0 {
        match size_of(s, src) {
            Err(_) => {},
            Ok(size) => {
                let node = u64_at(d, slot);
                let d1 = whole_copied(d, node, s, src, size as nat);
                lemma_whole_copied(d, node, s, src, size as nat, a);
                lemma_chain_frame(size_of, d1, u64_at(d1, slot), s, u64_at(s, src), (fuel - 1) as nat, a);
            },
        }
    }
}

/// Copying a chain into memories that hold the same bytes ends the same way
/// and leaves memories that hold the same bytes.
pub proof fn lemma_chain_same_bytes(
    size_of: SizeOf,
    d: Bytes,
    e: Bytes,
    slot: u64,
    s: Bytes,
    src: u64,
    fuel: nat,
)
    requires
        same_bytes(d, e),
    ensures
        plain_chain_copied(size_of, d, slot, s, src, fuel).0 == plain_chain_copied(
            size_of,
            e,
            slot,
            s,
            src,
            fuel,
        ).0,
        same_bytes(
            plain_chain_copied(size_of, d, slot, s, src, fuel).1,
            plain_chain_copied(size_of, e, slot, s, src, fuel).1,
        ),
    decreases fuel,
{
    if src != 0 && fuel != 0 {
        match size_of(s, src) {
            Err(_) => {},
            Ok(size) => {
                lemma_same_u64(d, e, slot);
                let node = u64_at(d, slot);
                lemma_same_u64(d, e, node);
                let d1 = whole_copied(d, node, s, src, size as nat);
                let e1 = whole_copied(e, node, s, src, size as nat);
                assert(same_bytes(d1, e1)) by {
                    lemma_with_u64(copied(d, node, s, src, size as nat), node, u64_at(d, node));
                    lemma_with_u64(copied(e, node, s, src, size as nat), node, u64_at(e, node));
                    assert forall|a: u64| byte_at(d1, a) == byte_at(e1, a) by {
                        lemma_copied_byte(d, node, s, src, size as nat, a);
                        lemma_copied_byte(e, node, s, src, size as nat, a);
                        if within(node, 8, a) {
                            lemma_u64_bytes(copied(d, node, s, src, size as nat), d, node, offset(node, a));
                            lemma_u64_bytes(copied(e, node, s, src, size as nat), e, node, offset(node, a));
                            crate::space::lemma_offset(node, a, offset(node, a));
                        }
                    }
                }
                lemma_same_u64(d1, e1, slot);
                lemma_chain_same_bytes(
                    size_of,
                    d1,
                    e1,
                    u64_at(d1, slot),
                    s,
                    u64_at(s, src),
                    (fuel - 1) as nat,
                );
            },
        }
    }
}

/// Walking a chain that was already copied copies it to the same image: the
/// second copy ends as the first did and changes no byte.
pub proof fn lemma_chain_copied_twice(size_of: SizeOf, d: Bytes, slot: u64, s: Bytes, src: u64, fuel: nat)
    requires
        laid_out(size_of, d, slot, s, src, fuel),
    ensures
        ({
            let (r, once) = plain_chain_copied(size_of, d, slot, s, src, fuel);
            let (again, twice) = plain_chain_copied(size_of, once, slot, s, src, fuel);
            again == r && same_bytes(twice, once)
        }),
    decreases fuel,
{
    if src != 0 && fuel != 0 {
        match size_of(s, src) {
            Err(_) => {},
            Ok(size) => {
                let node = u64_at(d, slot);
                let d1 = whole_copied(d, node, s, src, size as nat);
                let next_slot = u64_at(d1, slot);
                let next = u64_at(s, src);
                let rest = (fuel - 1) as nat;
                let (r, once) = plain_chain_copied(size_of, d1, next_slot, s, next, rest);
                assert forall|a: u64| within(slot, 8, a) implies byte_at(d1, a) == byte_at(d, a) by {
                    lemma_whole_copied(d, node, s, src, size as nat, a);
                }
                lemma_same_u64(d1, d, slot);
                assert(next_slot == node);
                assert forall|a: u64| within(slot, 8, a) implies byte_at(once, a) == byte_at(d1, a) by {
                    lemma_chain_frame(size_of, d1, next_slot, s, next, rest, a);
                }
                lemma_same_u64(once, d1, slot);
                assert(u64_at(once, slot) == node);
                let redone = whole_copied(once, node, s, src, size as nat);
                assert(same_bytes(redone, once)) by {
                    assert forall|a: u64| byte_at(redone, a) == byte_at(once, a) by {
                        lemma_whole_copied(once, node, s, src, size as nat, a);
                        if in_body(node, size, a) {
                            lemma_chain_frame(size_of, d1, next_slot, s, next, rest, a);
                            lemma_whole_copied(d, node, s, src, size as nat, a);
                        }
                    }
                }
                lemma_same_u64(redone, once, slot);
                lemma_chain_same_bytes(size_of, redone, once, node, s, next, rest);
                lemma_chain_copied_twice(size_of, d1, next_slot, s, next, rest);
            },
        }
    }
}

impl i915_user_extension {
    /// Size of the header.
    pub const SIZE: usize = 32;

    /// Size of what follows the address of the next extension: name, flags
    /// and reserved words.
    pub const BODY: usize = 24;

    /// Ends the chain at the extension at `addr`.
    pub fn init<M: Memory>(mem: &mut M, addr: u64)
        ensures
            final(mem).bytes() == with_u64(old(mem).bytes(), addr, 0),
    {
        write_u64(mem, field(addr, EXT_NEXT), 0);
    }

    /// The memory `d` after the header at `src` in `s` has been copied to the
    /// header at `dst` but for the address of the next extension.
    pub open spec fn header_copied(d: Bytes, dst: u64, s: Bytes, src: u64) -> Bytes {
        copied(d, at(dst, 8), s, at(src, 8), Self::BODY as nat)
    }

    /// Copies name, flags and reserved words of the header at `src` to the
    /// header at `dst`, which keeps its place in its own chain.
    pub fn copy<D: Memory, S: Memory>(dst_mem: &mut D, dst: u64, src_mem: &S, src: u64)
        ensures
            final(dst_mem).bytes() == Self::header_copied(
                old(dst_mem).bytes(),
                dst,
                src_mem.bytes(),
                src,
            ),
    {
        copy(dst_mem, field(dst, EXT_NAME), src_mem, field(src, EXT_NAME), Self::BODY);
    }
}

} // verus!
