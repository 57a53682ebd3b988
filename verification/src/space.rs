//! Byte-addressed memory as the marshalling engine sees it.
//!
//! The engine touches two memories: the trusted one, from which an ioctl
//! argument comes and to which the results go, and the untrusted one, which the
//! host kernel reads and writes. Both are reached through [`Memory`]. Integers
//! lie in memory least significant byte first, and addresses wrap at the end of
//! the 64-bit address space.

use vstd::prelude::*;
use std::collections::HashMap;

verus! {

broadcast use vstd::std_specs::hash::group_hash_axioms;

/// The contents of a memory: the bytes that were written, by address. A byte
/// that was never written reads as zero.
pub type Bytes = Map<u64, u8>;

/// The byte at `addr`.
pub open spec fn byte_at(m: Bytes, addr: u64) -> u8 {
    if m.dom().contains(addr) {
        m[addr]
    } else {
        0
    }
}

/// The address `off` bytes after `addr`.
pub open spec fn at(addr: u64, off: int) -> u64 {
    if addr + off > u64::MAX {
        (addr + off - 0x1_0000_0000_0000_0000) as u64
    } else {
        (addr + off) as u64
    }
}

/// The 16-bit number at `addr`.
#[verifier::opaque]
pub open spec fn u16_at(m: Bytes, addr: u64) -> u16 {
    (byte_at(m, addr) + 0x100 * byte_at(m, at(addr, 1))) as u16
}

/// The 32-bit number at `addr`.
#[verifier::opaque]
pub open spec fn u32_at(m: Bytes, addr: u64) -> u32 {
    (byte_at(m, addr) + 0x100 * byte_at(m, at(addr, 1)) + 0x1_0000 * byte_at(m, at(addr, 2))
        + 0x100_0000 * byte_at(m, at(addr, 3))) as u32
}

/// The signed 32-bit number at `addr`.
#[verifier::opaque]
pub open spec fn i32_at(m: Bytes, addr: u64) -> i32 {
    if u32_at(m, addr) >= 0x8000_0000 {
        (u32_at(m, addr) - 0x1_0000_0000) as i32
    } else {
        u32_at(m, addr) as i32
    }
}

/// The 64-bit number at `addr`.
#[verifier::opaque]
pub open spec fn u64_at(m: Bytes, addr: u64) -> u64 {
    (u32_at(m, addr) + 0x1_0000_0000 * u32_at(m, at(addr, 4))) as u64
}

/// The memory `m` with the 32-bit number `v` at `addr`.
#[verifier::opaque]
pub open spec fn with_u32(m: Bytes, addr: u64, v: u32) -> Bytes {
    m.insert(addr, (v % 0x100) as u8).insert(at(addr, 1), (v / 0x100 % 0x100) as u8).insert(
        at(addr, 2),
        (v / 0x1_0000 % 0x100) as u8,
    ).insert(at(addr, 3), (v / 0x100_0000) as u8)
}

/// The bits of a signed 32-bit number as an unsigned one.
pub open spec fn bits_of(v: i32) -> u32 {
    if v < 0 {
        (v + 0x1_0000_0000) as u32
    } else {
        v as u32
    }
}

/// The memory `m` with the 64-bit number `v` at `addr`.
#[verifier::opaque]
pub open spec fn with_u64(m: Bytes, addr: u64, v: u64) -> Bytes {
    with_u32(
        with_u32(m, addr, (v % 0x1_0000_0000) as u32),
        at(addr, 4),
        (v / 0x1_0000_0000) as u32,
    )
}

/// The memory `d` with its `len` bytes from `dst` replaced by the `len` bytes
/// of `s` from `src`.
pub open spec fn copied(d: Bytes, dst: u64, s: Bytes, src: u64, len: nat) -> Bytes
    decreases len,
{
    if len == 0 {
        d
    } else {
        copied(d, dst, s, src, (len - 1) as nat).insert(
            at(dst, len - 1),
            byte_at(s, at(src, len - 1)),
        )
    }
}

/// How far `a` lies after `base`, going round the end of the address space.
pub open spec fn offset(base: u64, a: u64) -> int {
    if a >= base {
        a - base
    } else {
        a - base + 0x1_0000_0000_0000_0000
    }
}

/// Whether `a` is one of the `len` addresses from `base` on.
pub open spec fn within(base: u64, len: int, a: u64) -> bool {
    offset(base, a) < len
}

/// Whether two memories hold the same byte at every address.
pub open spec fn same_bytes(m1: Bytes, m2: Bytes) -> bool {
    forall|a: u64| byte_at(m1, a) == byte_at(m2, a)
}

/// The address `i` bytes after `base` lies `i` bytes after `base`, and no
/// other address does.
pub proof fn lemma_offset(base: u64, a: u64, i: int)
    requires
        0 <= i < 0x1_0000_0000_0000_0000,
    ensures
        at(base, i) == a <==> offset(base, a) == i,
        0 <= offset(base, a) < 0x1_0000_0000_0000_0000,
{
}

/// A copy replaces the bytes of the destination range by the bytes at the
/// same place of the source range, and touches no byte outside it.
pub proof fn lemma_copied_byte(d: Bytes, dst: u64, s: Bytes, src: u64, len: nat, a: u64)
    requires
        len <= 0x1_0000_0000_0000_0000,
    ensures
        byte_at(copied(d, dst, s, src, len), a) == if within(dst, len as int, a) {
            byte_at(s, at(src, offset(dst, a)))
        } else {
            byte_at(d, a)
        },
    decreases len,
{
    if len > 0 {
        lemma_copied_byte(d, dst, s, src, (len - 1) as nat, a);
        lemma_offset(dst, a, len - 1);
    }
}

/// A 32-bit number that was written is read back, and the write touches no
/// byte but its own four.
pub proof fn lemma_with_u32(m: Bytes, addr: u64, v: u32)
    ensures
        u32_at(with_u32(m, addr, v), addr) == v,
        forall|a: u64| !within(addr, 4, a) ==> byte_at(with_u32(m, addr, v), a) == byte_at(m, a),
{
    reveal(u32_at);
    reveal(with_u32);
    let m1 = with_u32(m, addr, v);
    lemma_offset(addr, at(addr, 1), 1);
    lemma_offset(addr, at(addr, 2), 2);
    lemma_offset(addr, at(addr, 3), 3);
    assert(byte_at(m1, at(addr, 3)) == (v / 0x100_0000) as u8);
    assert(byte_at(m1, at(addr, 2)) == (v / 0x1_0000 % 0x100) as u8);
    assert(byte_at(m1, at(addr, 1)) == (v / 0x100 % 0x100) as u8);
    assert(byte_at(m1, addr) == (v % 0x100) as u8);
    assert forall|a: u64| !within(addr, 4, a) implies byte_at(m1, a) == byte_at(m, a) by {
        lemma_offset(addr, a, 0);
        lemma_offset(addr, a, 1);
        lemma_offset(addr, a, 2);
        lemma_offset(addr, a, 3);
    }
}

/// A 64-bit number that was written is read back, and the write touches no
/// byte but its own eight.
pub proof fn lemma_with_u64(m: Bytes, addr: u64, v: u64)
    ensures
        u64_at(with_u64(m, addr, v), addr) == v,
        forall|a: u64| !within(addr, 8, a) ==> byte_at(with_u64(m, addr, v), a) == byte_at(m, a),
{
    reveal(u32_at);
    reveal(u64_at);
    reveal(with_u64);
    let low = (v % 0x1_0000_0000) as u32;
    let high = (v / 0x1_0000_0000) as u32;
    let m1 = with_u32(m, addr, low);
    let m2 = with_u32(m1, at(addr, 4), high);
    lemma_with_u32(m, addr, low);
    lemma_with_u32(m1, at(addr, 4), high);
    assert(u32_at(m2, addr) == low) by {
        lemma_offset(addr, at(addr, 1), 1);
        lemma_offset(addr, at(addr, 2), 2);
        lemma_offset(addr, at(addr, 3), 3);
        assert(!within(at(addr, 4), 4, addr));
        assert(!within(at(addr, 4), 4, at(addr, 1)));
        assert(!within(at(addr, 4), 4, at(addr, 2)));
        assert(!within(at(addr, 4), 4, at(addr, 3)));
    }
    assert forall|a: u64| !within(addr, 8, a) implies byte_at(m2, a) == byte_at(m, a) by {
        assert(!within(at(addr, 4), 4, a));
        assert(!within(addr, 4, a));
    }
}

/// Writing the 32-bit number that stands at an address of `d` to the same
/// address of any memory puts there the four bytes that `d` holds there.
pub proof fn lemma_u32_bytes(m: Bytes, d: Bytes, addr: u64, i: int)
    requires
        0 <= i < 4,
    ensures
        byte_at(with_u32(m, addr, u32_at(d, addr)), at(addr, i)) == byte_at(d, at(addr, i)),
{
    reveal(u32_at);
    reveal(with_u32);
    let v = u32_at(d, addr);
    let b0 = byte_at(d, addr) as int;
    let b1 = byte_at(d, at(addr, 1)) as int;
    let b2 = byte_at(d, at(addr, 2)) as int;
    let b3 = byte_at(d, at(addr, 3)) as int;
    assert(v == b0 + 0x100 * b1 + 0x1_0000 * b2 + 0x100_0000 * b3);
    assert(v % 0x100 == b0);
    assert(v / 0x100 % 0x100 == b1);
    assert(v / 0x1_0000 % 0x100 == b2);
    assert(v / 0x100_0000 == b3);
    lemma_offset(addr, at(addr, 1), 1);
    lemma_offset(addr, at(addr, 2), 2);
    lemma_offset(addr, at(addr, 3), 3);
}

/// Writing the 64-bit number that stands at an address of `d` to the same
/// address of any memory puts there the eight bytes that `d` holds there.
pub proof fn lemma_u64_bytes(m: Bytes, d: Bytes, addr: u64, i: int)
    requires
        0 <= i < 8,
    ensures
        byte_at(with_u64(m, addr, u64_at(d, addr)), at(addr, i)) == byte_at(d, at(addr, i)),
{
    reveal(u64_at);
    reveal(with_u64);
    let v = u64_at(d, addr);
    let low = u32_at(d, addr);
    let high = u32_at(d, at(addr, 4));
    assert(v % 0x1_0000_0000 == low);
    assert(v / 0x1_0000_0000 == high);
    let m1 = with_u32(m, addr, low);
    lemma_with_u32(m1, at(addr, 4), high);
    if i < 4 {
        lemma_u32_bytes(m, d, addr, i);
        lemma_offset(addr, at(addr, i), i);
        assert(!within(at(addr, 4), 4, at(addr, i)));
    } else {
        lemma_u32_bytes(m1, d, at(addr, 4), i - 4);
        assert(at(at(addr, 4), i - 4) == at(addr, i));
    }
}

/// Memories that hold the same bytes hold the same 64-bit numbers.
pub proof fn lemma_same_u64(m1: Bytes, m2: Bytes, addr: u64)
    requires
        forall|a: u64| within(addr, 8, a) ==> byte_at(m1, a) == byte_at(m2, a),
    ensures
        u64_at(m1, addr) == u64_at(m2, addr),
{
    reveal(u32_at);
    reveal(u64_at);
    lemma_offset(addr, at(addr, 1), 1);
    lemma_offset(addr, at(addr, 2), 2);
    lemma_offset(addr, at(addr, 3), 3);
    lemma_offset(addr, at(addr, 4), 4);
    lemma_offset(addr, at(at(addr, 4), 1), 5);
    lemma_offset(addr, at(at(addr, 4), 2), 6);
    lemma_offset(addr, at(at(addr, 4), 3), 7);
}

/// Memories that hold the same bytes hold the same 32-bit numbers.
pub proof fn lemma_same_u32(m1: Bytes, m2: Bytes, addr: u64)
    requires
        forall|a: u64| within(addr, 4, a) ==> byte_at(m1, a) == byte_at(m2, a),
    ensures
        u32_at(m1, addr) == u32_at(m2, addr),
{
    reveal(u32_at);
    lemma_offset(addr, at(addr, 1), 1);
    lemma_offset(addr, at(addr, 2), 2);
    lemma_offset(addr, at(addr, 3), 3);
}

/// What was copied out and comes back unchanged leaves the memory it came
/// from as it was.
pub proof fn lemma_round_trip(t: Bytes, arg: u64, u: Bytes, ptr: u64, len: nat)
    requires
        len <= 0x1_0000_0000_0000_0000,
    ensures
        same_bytes(copied(t, arg, copied(u, ptr, t, arg, len), ptr, len), t),
{
    let out = copied(u, ptr, t, arg, len);
    let back = copied(t, arg, out, ptr, len);
    assert forall|a: u64| byte_at(back, a) == byte_at(t, a) by {
        lemma_copied_byte(t, arg, out, ptr, len, a);
        if within(arg, len as int, a) {
            let i = offset(arg, a);
            lemma_copied_byte(u, ptr, t, arg, len, at(ptr, i));
            lemma_offset(ptr, at(ptr, i), i);
            lemma_offset(arg, a, i);
        }
    }
}

/// What the copy holds after the call lands at the same place of the range
/// that is copied back.
pub proof fn lemma_results_land(t: Bytes, arg: u64, u: Bytes, ptr: u64, len: nat, i: int)
    requires
        len <= 0x1_0000_0000_0000_0000,
        0 <= i < len,
    ensures
        byte_at(copied(t, arg, u, ptr, len), at(arg, i)) == byte_at(u, at(ptr, i)),
{
    lemma_copied_byte(t, arg, u, ptr, len, at(arg, i));
    lemma_offset(arg, at(arg, i), i);
}

/// Whether the `la` bytes from `a` and the `lb` bytes from `b` lie one after
/// the other, neither going round the end of the address space.
pub open spec fn clear(a: u64, la: int, b: u64, lb: int) -> bool {
    &&& a + la <= 0x1_0000_0000_0000_0000
    &&& b + lb <= 0x1_0000_0000_0000_0000
    &&& a + la <= b || b + lb <= a
}

/// A write of a 64-bit number leaves a 64-bit number at another place as it
/// is.
pub proof fn lemma_put_kept_u64(m: Bytes, field: u64, x: u64, other: u64)
    requires
        clear(other, 8, field, 8),
    ensures
        u64_at(with_u64(m, field, x), other) == u64_at(m, other),
{
    lemma_with_u64(m, field, x);
    assert forall|a: u64| within(other, 8, a) implies byte_at(with_u64(m, field, x), a) == byte_at(
        m,
        a,
    ) by {}
    lemma_same_u64(with_u64(m, field, x), m, other);
}

/// A copy leaves a 64-bit number outside its destination as it is.
pub proof fn lemma_kept_u64(d: Bytes, dst: u64, s: Bytes, src: u64, len: nat, field: u64)
    requires
        len <= 0x1_0000_0000_0000_0000,
        clear(field, 8, dst, len as int),
    ensures
        u64_at(copied(d, dst, s, src, len), field) == u64_at(d, field),
{
    assert forall|a: u64| within(field, 8, a) implies byte_at(copied(d, dst, s, src, len), a)
        == byte_at(d, a) by {
        lemma_copied_byte(d, dst, s, src, len, a);
    }
    lemma_same_u64(copied(d, dst, s, src, len), d, field);
}

/// A copy leaves a 32-bit number outside its destination as it is.
pub proof fn lemma_kept_u32(d: Bytes, dst: u64, s: Bytes, src: u64, len: nat, field: u64)
    requires
        len <= 0x1_0000_0000_0000_0000,
        clear(field, 4, dst, len as int),
    ensures
        u32_at(copied(d, dst, s, src, len), field) == u32_at(d, field),
{
    assert forall|a: u64| within(field, 4, a) implies byte_at(copied(d, dst, s, src, len), a)
        == byte_at(d, a) by {
        lemma_copied_byte(d, dst, s, src, len, a);
    }
    lemma_same_u32(copied(d, dst, s, src, len), d, field);
}

/// A copy leaves the bytes of a range outside its destination as they are.
pub proof fn lemma_kept_bytes(d: Bytes, dst: u64, s: Bytes, src: u64, len: nat, base: u64, n: int)
    requires
        len <= 0x1_0000_0000_0000_0000,
        clear(base, n, dst, len as int),
    ensures
        forall|i: int|
            0 <= i < n ==> byte_at(copied(d, dst, s, src, len), #[trigger] at(base, i)) == byte_at(
                d,
                at(base, i),
            ),
{
    assert forall|i: int| 0 <= i < n implies byte_at(
        copied(d, dst, s, src, len),
        #[trigger] at(base, i),
    ) == byte_at(d, at(base, i)) by {
        lemma_copied_byte(d, dst, s, src, len, at(base, i));
    }
}

/// A copy puts the bytes of the source at the same places of the
/// destination.
pub proof fn lemma_copied_from(d: Bytes, dst: u64, s: Bytes, src: u64, len: nat)
    requires
        len <= 0x1_0000_0000_0000_0000,
    ensures
        forall|i: int|
            0 <= i < len ==> byte_at(copied(d, dst, s, src, len), #[trigger] at(dst, i)) == byte_at(
                s,
                at(src, i),
            ),
{
    assert forall|i: int| 0 <= i < len implies byte_at(
        copied(d, dst, s, src, len),
        #[trigger] at(dst, i),
    ) == byte_at(s, at(src, i)) by {
        lemma_results_land(d, dst, s, src, len, i);
    }
}

/// A copy of bytes that the destination holds already changes nothing.
pub proof fn lemma_copied_same(t: Bytes, dst: u64, u: Bytes, src: u64, len: nat)
    requires
        len <= 0x1_0000_0000_0000_0000,
        forall|i: int| 0 <= i < len ==> byte_at(u, #[trigger] at(src, i)) == byte_at(t, at(dst, i)),
    ensures
        same_bytes(copied(t, dst, u, src, len), t),
{
    assert forall|a: u64| byte_at(copied(t, dst, u, src, len), a) == byte_at(t, a) by {
        lemma_copied_byte(t, dst, u, src, len, a);
        if within(dst, len as int, a) {
            let i = offset(dst, a);
            lemma_offset(dst, a, i);
            assert(byte_at(u, at(src, i)) == byte_at(t, at(dst, i)));
        }
    }
}

/// Memories that hold the same bytes hold the same bytes after the same
/// copy.
pub proof fn lemma_copied_alike(d: Bytes, e: Bytes, dst: u64, s: Bytes, src: u64, len: nat)
    requires
        len <= 0x1_0000_0000_0000_0000,
        same_bytes(d, e),
    ensures
        same_bytes(copied(d, dst, s, src, len), copied(e, dst, s, src, len)),
{
    assert forall|a: u64| byte_at(copied(d, dst, s, src, len), a) == byte_at(
        copied(e, dst, s, src, len),
        a,
    ) by {
        lemma_copied_byte(d, dst, s, src, len, a);
        lemma_copied_byte(e, dst, s, src, len, a);
    }
}

/// Whether the `n` bytes of `m` from `v` are the `n` bytes of `t` from
/// `data`.
#[verifier::opaque]
pub open spec fn mirrors(m: Bytes, v: u64, t: Bytes, data: u64, n: int) -> bool {
    forall|i: int| 0 <= i < n ==> byte_at(m, #[trigger] at(v, i)) == byte_at(t, at(data, i))
}

/// Nothing mirrors nothing.
pub proof fn lemma_mirrors_none(m: Bytes, v: u64, t: Bytes, data: u64)
    ensures
        mirrors(m, v, t, data, 0),
{
    reveal(mirrors);
}

/// What was copied mirrors its source.
pub proof fn lemma_mirrors_copied(d: Bytes, v: u64, t: Bytes, data: u64, n: nat)
    requires
        n <= 0x1_0000_0000_0000_0000,
    ensures
        mirrors(copied(d, v, t, data, n), v, t, data, n as int),
{
    reveal(mirrors);
    lemma_copied_from(d, v, t, data, n);
}

/// A copy to another place leaves a mirror as it is.
pub proof fn lemma_mirrors_kept(
    d: Bytes,
    dst: u64,
    s: Bytes,
    src: u64,
    len: nat,
    v: u64,
    t: Bytes,
    data: u64,
    n: int,
)
    requires
        len <= 0x1_0000_0000_0000_0000,
        mirrors(d, v, t, data, n),
        n > 0 && len > 0 ==> clear(v, n, dst, len as int),
    ensures
        mirrors(copied(d, dst, s, src, len), v, t, data, n),
{
    reveal(mirrors);
    if n > 0 && len > 0 {
        lemma_kept_bytes(d, dst, s, src, len, v, n);
    }
}

/// A write of a 64-bit number to another place leaves a mirror as it is.
pub proof fn lemma_mirrors_kept_u64(m: Bytes, field: u64, x: u64, v: u64, t: Bytes, data: u64, n: int)
    requires
        mirrors(m, v, t, data, n),
        n > 0 ==> clear(v, n, field, 8),
    ensures
        mirrors(with_u64(m, field, x), v, t, data, n),
{
    reveal(mirrors);
    lemma_with_u64(m, field, x);
}

/// A part of a mirror is a mirror.
pub proof fn lemma_mirrors_part(m: Bytes, v: u64, t: Bytes, data: u64, n: int, off: int, k: int)
    requires
        mirrors(m, v, t, data, n),
        0 <= off,
        0 <= k,
        off + k <= n <= 0x1_0000_0000_0000_0000,
    ensures
        mirrors(m, at(v, off), t, at(data, off), k),
{
    reveal(mirrors);
    assert forall|i: int| 0 <= i < k implies byte_at(m, #[trigger] at(at(v, off), i)) == byte_at(
        t,
        at(at(data, off), i),
    ) by {
        assert(at(at(v, off), i) == at(v, off + i));
        assert(at(at(data, off), i) == at(data, off + i));
    }
}

/// A mirror of eight bytes holds the 64-bit number of its source.
pub proof fn lemma_mirrors_u64(m: Bytes, v: u64, t: Bytes, data: u64)
    requires
        mirrors(m, v, t, data, 8),
    ensures
        u64_at(m, v) == u64_at(t, data),
{
    reveal(u32_at);
    reveal(u64_at);
    reveal(mirrors);
    assert(at(v, 0) == v && at(data, 0) == data);
    assert(at(at(v, 4), 0) == at(v, 4) && at(at(data, 4), 0) == at(data, 4));
    assert(at(at(v, 4), 1) == at(v, 5) && at(at(data, 4), 1) == at(data, 5));
    assert(at(at(v, 4), 2) == at(v, 6) && at(at(data, 4), 2) == at(data, 6));
    assert(at(at(v, 4), 3) == at(v, 7) && at(at(data, 4), 3) == at(data, 7));
}

/// A mirror of four bytes holds the 32-bit number of its source.
pub proof fn lemma_mirrors_u32(m: Bytes, v: u64, t: Bytes, data: u64)
    requires
        mirrors(m, v, t, data, 4),
    ensures
        u32_at(m, v) == u32_at(t, data),
{
    reveal(u32_at);
    reveal(mirrors);
    assert(at(v, 0) == v && at(data, 0) == data);
}

/// A byte of a mirror is the byte of its source.
pub proof fn lemma_mirrors_byte(m: Bytes, v: u64, t: Bytes, data: u64, n: int, i: int)
    requires
        mirrors(m, v, t, data, n),
        0 <= i < n,
    ensures
        byte_at(m, at(v, i)) == byte_at(t, at(data, i)),
{
    reveal(mirrors);
}

/// Two mirrors of the same source at the same place hold the same bytes.
pub proof fn lemma_mirrors_agree(m1: Bytes, m2: Bytes, v: u64, t: Bytes, data: u64, n: int)
    requires
        mirrors(m1, v, t, data, n),
        mirrors(m2, v, t, data, n),
        n <= 0x1_0000_0000_0000_0000,
    ensures
        forall|a: u64| within(v, n, a) ==> byte_at(m1, a) == byte_at(m2, a),
{
    assert forall|a: u64| within(v, n, a) implies byte_at(m1, a) == byte_at(m2, a) by {
        let i = offset(v, a);
        lemma_offset(v, a, i);
        lemma_mirrors_byte(m1, v, t, data, n, i);
        lemma_mirrors_byte(m2, v, t, data, n, i);
    }
}

/// Memories that hold the same 64-bit number at a place hold the same bytes
/// there.
pub proof fn lemma_same_number(m1: Bytes, m2: Bytes, addr: u64)
    requires
        u64_at(m1, addr) == u64_at(m2, addr),
    ensures
        forall|a: u64| within(addr, 8, a) ==> byte_at(m1, a) == byte_at(m2, a),
{
    assert forall|a: u64| within(addr, 8, a) implies byte_at(m1, a) == byte_at(m2, a) by {
        let i = offset(addr, a);
        lemma_offset(addr, a, i);
        lemma_u64_bytes(m1, m1, addr, i);
        lemma_u64_bytes(m1, m2, addr, i);
    }
}

/// A mirror of two bytes holds the 16-bit number of its source.
pub proof fn lemma_mirrors_u16(m: Bytes, v: u64, t: Bytes, data: u64)
    requires
        mirrors(m, v, t, data, 2),
    ensures
        u16_at(m, v) == u16_at(t, data),
{
    reveal(u16_at);
    reveal(mirrors);
    assert(at(v, 0) == v && at(data, 0) == data);
}

/// A mirror stays a mirror in a memory that holds the same bytes in its
/// place.
pub proof fn lemma_mirrors_framed(m: Bytes, n: Bytes, v: u64, t: Bytes, data: u64, len: int)
    requires
        mirrors(m, v, t, data, len),
        forall|a: u64| within(v, len, a) ==> byte_at(n, a) == byte_at(m, a),
        len <= 0x1_0000_0000_0000_0000,
    ensures
        mirrors(n, v, t, data, len),
{
    reveal(mirrors);
    assert forall|i: int| 0 <= i < len implies byte_at(n, #[trigger] at(v, i)) == byte_at(
        t,
        at(data, i),
    ) by {
        lemma_offset(v, at(v, i), i);
    }
}

/// A mirror of four bytes holds the signed 32-bit number of its source.
pub proof fn lemma_mirrors_i32(m: Bytes, v: u64, t: Bytes, data: u64)
    requires
        mirrors(m, v, t, data, 4),
    ensures
        i32_at(m, v) == i32_at(t, data),
{
    lemma_mirrors_u32(m, v, t, data);
    reveal(i32_at);
}

/// Memories that hold the same bytes hold the same signed 32-bit numbers.
pub proof fn lemma_same_i32(m1: Bytes, m2: Bytes, addr: u64)
    requires
        forall|a: u64| within(addr, 4, a) ==> byte_at(m1, a) == byte_at(m2, a),
    ensures
        i32_at(m1, addr) == i32_at(m2, addr),
{
    lemma_same_u32(m1, m2, addr);
    reveal(i32_at);
}

/// Two mirrors that lie one after the other are one mirror.
pub proof fn lemma_mirrors_join(m: Bytes, v: u64, t: Bytes, data: u64, n1: int, n2: int)
    requires
        0 <= n1,
        0 <= n2,
        mirrors(m, v, t, data, n1),
        mirrors(m, at(v, n1), t, at(data, n1), n2),
        n1 + n2 <= 0x1_0000_0000_0000_0000,
    ensures
        mirrors(m, v, t, data, n1 + n2),
{
    reveal(mirrors);
    assert forall|i: int| 0 <= i < n1 + n2 implies byte_at(m, #[trigger] at(v, i)) == byte_at(
        t,
        at(data, i),
    ) by {
        if i >= n1 {
            assert(at(at(v, n1), i - n1) == at(v, i));
            assert(at(at(data, n1), i - n1) == at(data, i));
        }
    }
}

/// Copying a mirror back to its source changes nothing there, nor in a
/// memory that holds the same bytes as the source.
pub proof fn lemma_mirrors_back(near: Bytes, t: Bytes, data: u64, m: Bytes, v: u64, n: nat)
    requires
        n <= 0x1_0000_0000_0000_0000,
        mirrors(m, v, t, data, n as int),
        same_bytes(near, t),
    ensures
        same_bytes(copied(near, data, m, v, n), t),
{
    reveal(mirrors);
    lemma_copied_same(t, data, m, v, n);
    lemma_copied_alike(near, t, data, m, v, n);
}

/// Copying the same bytes to the same place a second time changes nothing.
pub proof fn lemma_copied_twice(d: Bytes, dst: u64, s: Bytes, src: u64, len: nat)
    requires
        len <= 0x1_0000_0000_0000_0000,
    ensures
        same_bytes(copied(copied(d, dst, s, src, len), dst, s, src, len), copied(d, dst, s, src, len)),
{
    let once = copied(d, dst, s, src, len);
    assert forall|a: u64| byte_at(copied(once, dst, s, src, len), a) == byte_at(once, a) by {
        lemma_copied_byte(once, dst, s, src, len, a);
        lemma_copied_byte(d, dst, s, src, len, a);
    }
}

/// A byte-addressed memory.
pub trait Memory {
    /// The contents of the memory.
    spec fn bytes(&self) -> Bytes;

    /// The byte at `addr`.
    fn load(&self, addr: u64) -> (b: u8)
        ensures
            b == byte_at(self.bytes(), addr),
    ;

    /// Writes `b` at `addr`, and nowhere else.
    fn store(&mut self, addr: u64, b: u8)
        ensures
            final(self).bytes() == old(self).bytes().insert(addr, b),
    ;
}

/// A memory that holds the bytes written to it, and nothing else.
pub struct Ram {
    cells: HashMap<u64, u8>,
}

impl Ram {
    /// A memory to which nothing was written.
    pub fn new() -> (ram: Ram)
        ensures
            ram.bytes() == Map::<u64, u8>::empty(),
    {
        Ram { cells: HashMap::new() }
    }
}

impl Memory for Ram {
    closed spec fn bytes(&self) -> Bytes {
        self.cells@
    }

    fn load(&self, addr: u64) -> (b: u8) {
        match self.cells.get(&addr) {
            Some(b) => *b,
            None => 0,
        }
    }

    fn store(&mut self, addr: u64, b: u8) {
        self.cells.insert(addr, b);
    }
}

/// Reads the 16-bit number at `addr`.
pub fn read_u16<M: Memory>(mem: &M, addr: u64) -> (v: u16)
    ensures
        v == u16_at(mem.bytes(), addr),
{
    reveal(u16_at);
    let b0: u16 = mem.load(addr) as u16;
    let b1: u16 = mem.load(addr.wrapping_add(1)) as u16;
    b0 + 0x100 * b1
}

/// Reads the 32-bit number at `addr`.
pub fn read_u32<M: Memory>(mem: &M, addr: u64) -> (v: u32)
    ensures
        v == u32_at(mem.bytes(), addr),
{
    reveal(u32_at);
    let b0: u32 = mem.load(addr) as u32;
    let b1: u32 = mem.load(addr.wrapping_add(1)) as u32;
    let b2: u32 = mem.load(addr.wrapping_add(2)) as u32;
    let b3: u32 = mem.load(addr.wrapping_add(3)) as u32;
    b0 + 0x100 * b1 + 0x1_0000 * b2 + 0x100_0000 * b3
}

/// Reads the signed 32-bit number at `addr`.
pub fn read_i32<M: Memory>(mem: &M, addr: u64) -> (v: i32)
    ensures
        v == i32_at(mem.bytes(), addr),
{
    reveal(i32_at);
    let bits: u32 = read_u32(mem, addr);
    if bits >= 0x8000_0000 {
        let low: u32 = bits - 0x8000_0000;
        low as i32 - 0x4000_0000 - 0x4000_0000
    } else {
        bits as i32
    }
}

/// Reads the 64-bit number at `addr`.
pub fn read_u64<M: Memory>(mem: &M, addr: u64) -> (v: u64)
    ensures
        v == u64_at(mem.bytes(), addr),
{
    reveal(u64_at);
    let low: u64 = read_u32(mem, addr) as u64;
    let high: u64 = read_u32(mem, addr.wrapping_add(4)) as u64;
    low + 0x1_0000_0000 * high
}

/// Writes the 32-bit number `v` at `addr`.
pub fn write_u32<M: Memory>(mem: &mut M, addr: u64, v: u32)
    ensures
        final(mem).bytes() == with_u32(old(mem).bytes(), addr, v),
{
    reveal(with_u32);
    mem.store(addr, (v % 0x100) as u8);
    mem.store(addr.wrapping_add(1), (v / 0x100 % 0x100) as u8);
    mem.store(addr.wrapping_add(2), (v / 0x1_0000 % 0x100) as u8);
    mem.store(addr.wrapping_add(3), (v / 0x100_0000) as u8);
}

/// Writes the signed 32-bit number `v` at `addr`.
pub fn write_i32<M: Memory>(mem: &mut M, addr: u64, v: i32)
    ensures
        final(mem).bytes() == with_u32(old(mem).bytes(), addr, bits_of(v)),
{
    let bits: u32 = if v < 0 {
        let low: i32 = v + 0x4000_0000 + 0x4000_0000;
        low as u32 + 0x8000_0000
    } else {
        v as u32
    };
    write_u32(mem, addr, bits);
}

/// Writes the 64-bit number `v` at `addr`.
pub fn write_u64<M: Memory>(mem: &mut M, addr: u64, v: u64)
    ensures
        final(mem).bytes() == with_u64(old(mem).bytes(), addr, v),
{
    reveal(with_u64);
    write_u32(mem, addr, (v % 0x1_0000_0000) as u32);
    write_u32(mem, addr.wrapping_add(4), (v / 0x1_0000_0000) as u32);
}

/// Copies `len` bytes from `src` in `src_mem` to `dst` in `dst_mem`.
pub fn copy<D: Memory, S: Memory>(dst_mem: &mut D, dst: u64, src_mem: &S, src: u64, len: usize)
    ensures
        final(dst_mem).bytes() == copied(
            old(dst_mem).bytes(),
            dst,
            src_mem.bytes(),
            src,
            len as nat,
        ),
{
    let mut i: usize = 0;
    while i < len
        invariant
            i <= len,
            dst_mem.bytes() == copied(old(dst_mem).bytes(), dst, src_mem.bytes(), src, i as nat),
        decreases len - i,
    {
        let b: u8 = src_mem.load(src.wrapping_add(i as u64));
        dst_mem.store(dst.wrapping_add(i as u64), b);
        i = i + 1;
    }
}

} // verus!
