//! Binary-buddy allocation over arenas of host-shared memory.
//!
//! An arena of `2^n` leaf blocks is a complete binary tree: level `0` holds the
//! single root block, level `n` the leaves. A block is named by its level and
//! its index on that level; the block `i` of a level is the parent of the
//! blocks `2i` and `2i + 1` one level down, and `i ^ 1` is its buddy.

use vstd::prelude::*;
use vstd::arithmetic::power2::{pow2, is_pow2, lemma_pow2_pos, lemma_pow2_unfold, lemma_pow2_adds, lemma_pow2_strictly_increases, lemma2_to64};
use vstd::arithmetic::div_mod::{lemma_div_by_multiple, lemma_fundamental_div_mod, lemma_div_denominator};
use vstd::arithmetic::mul::lemma_mul_is_associative;
use vstd::bits::{lemma_usize_shl_is_mul, lemma_usize_shr_is_div};

verus! {

/// The mathematical state of one arena.
pub struct Arena {
    /// First address of the arena.
    pub start: int,
    /// One past the last address of the arena.
    pub end: int,
    /// Size in bytes of a leaf block.
    pub block_size: int,
    /// Number of levels above the leaves.
    pub levels: int,
    /// The free blocks of each level, in the order in which they are handed out
    /// (last first).
    pub free: Seq<Seq<u32>>,
}

/// The free lists of an arena whose only free block is the root.
pub open spec fn fresh_lists(levels: int) -> Seq<Seq<u32>> {
    Seq::new((levels + 1) as nat, |l: int| if l == 0 { seq![0u32] } else { Seq::<u32>::empty() })
}

/// The buddy of block `b`: the other half of its parent.
pub open spec fn buddy(b: u32) -> u32 {
    if b % 2 == 0 { (b + 1) as u32 } else { (b - 1) as u32 }
}

/// Whether `i` is the first place at which `b` stands in `s`.
pub open spec fn first_at(s: Seq<u32>, b: u32, i: int) -> bool {
    &&& 0 <= i < s.len()
    &&& s[i] == b
    &&& forall|j: int| 0 <= j < i ==> s[j] != b
}

/// What taking a block of `level` does: the block handed out and the free
/// lists that remain, or `None` if neither this level nor one above it holds a
/// free block. A level with a free block gives up its last one; an empty level
/// takes a block from the level above, keeps the upper half free and hands out
/// the lower half.
pub open spec fn take_block(free: Seq<Seq<u32>>, level: int) -> Option<(u32, Seq<Seq<u32>>)>
    decreases level,
{
    if level < 0 || level >= free.len() {
        None
    } else if free[level].len() > 0 {
        Some((free[level].last(), free.update(level, free[level].drop_last())))
    } else if level == 0 {
        None
    } else {
        match take_block(free, level - 1) {
            Some((b, rest)) => Some(
                ((2 * b) as u32, rest.update(level, rest[level].push((2 * b + 1) as u32))),
            ),
            None => None,
        }
    }
}

/// What merging does once `block` has been put last on the free list of
/// `level`: as long as the buddy of the block is free on the same level, both
/// leave it and their parent is put last on the list one level up.
pub open spec fn merge(free: Seq<Seq<u32>>, level: int, block: u32) -> Seq<Seq<u32>>
    decreases level,
{
    if 0 < level < free.len() && free[level].contains(buddy(block)) {
        let i = choose|i: int| first_at(free[level], buddy(block), i);
        let here = free[level].drop_last().remove(i);
        let up = free.update(level, here).update(level - 1, free[level - 1].push(block / 2));
        merge(up, level - 1, block / 2)
    } else {
        free
    }
}

/// What giving back `block` of `level` does to the free lists.
pub open spec fn release(free: Seq<Seq<u32>>, level: int, block: u32) -> Seq<Seq<u32>> {
    merge(free.update(level, free[level].push(block)), level, block)
}

/// Whether `level` is the level that serves a request of `size` bytes in an
/// arena of `levels` levels above leaves of `block_size` bytes: the deepest
/// whose blocks hold `size` bytes.
pub open spec fn is_level(block_size: int, levels: int, size: int, level: int) -> bool {
    &&& 0 <= level <= levels
    &&& size <= block_size * pow2((levels - level) as nat)
    &&& level < levels ==> block_size * pow2((levels - (level + 1)) as nat) < size
}

/// The level that serves a request of `size` bytes in an arena of `levels`
/// levels above leaves of `block_size` bytes.
pub open spec fn level_of(block_size: int, levels: int, size: int) -> int {
    choose|l: int| is_level(block_size, levels, size, l)
}

impl Arena {
    /// Bytes covered by the root block.
    pub open spec fn max_size(self) -> int {
        self.block_size * pow2(self.levels as nat)
    }

    /// Bytes covered by one block of `level`.
    pub open spec fn block_bytes(self, level: int) -> int {
        self.block_size * pow2((self.levels - level) as nat)
    }

    /// Whether an arena can be laid over `[start, end)` with leaves of
    /// `block_size` bytes: the range is not empty, the leaf size is a power of
    /// two, block indices fit in 32 bits and the root block does not run past
    /// the end of the address space.
    pub open spec fn region_ok(start: int, end: int, block_size: int) -> bool {
        &&& 0 <= start < end
        &&& is_pow2(block_size)
        &&& exists|n: nat|
            n <= 32 && end - start <= block_size * #[trigger] pow2(n) && start + block_size * pow2(n)
                <= usize::MAX
    }

    /// Whether `n` is the number of levels above the leaves of an arena of
    /// `span` bytes with leaves of `block_size` bytes: the least that makes
    /// the root block hold the arena.
    pub open spec fn levels_are(span: int, block_size: int, n: nat) -> bool {
        &&& span <= block_size * pow2(n)
        &&& n > 0 ==> block_size * pow2((n - 1) as nat) < span
    }

    /// The number of levels above the leaves of an arena of `span` bytes with
    /// leaves of `block_size` bytes.
    pub open spec fn levels_of(span: int, block_size: int) -> nat {
        choose|n: nat| Self::levels_are(span, block_size, n)
    }

    /// The arena over `[start, end)` with leaves of `block_size` bytes, all of
    /// it free.
    pub open spec fn fresh(start: int, end: int, block_size: int) -> Arena {
        Arena {
            start,
            end,
            block_size,
            levels: Self::levels_of(end - start, block_size) as int,
            free: fresh_lists(Self::levels_of(end - start, block_size) as int),
        }
    }

    /// The dimensions are consistent with each other.
    pub open spec fn shape_ok(self) -> bool {
        &&& 0 <= self.start < self.end
        &&& is_pow2(self.block_size)
        &&& 0 < self.block_size <= u16::MAX
        &&& 0 <= self.levels <= 32
        &&& self.end - self.start <= self.max_size()
        &&& self.levels > 0 ==> self.block_size * pow2((self.levels - 1) as nat) < self.end
            - self.start
        &&& self.start + self.max_size() <= usize::MAX
        &&& self.free.len() == self.levels + 1
    }

    /// Every free index names a block that exists on its level.
    pub open spec fn indices_ok(self) -> bool {
        forall|l: int, i: int|
            0 <= l <= self.levels && 0 <= i < self.free[l].len() ==> (#[trigger] self.free[l][i])
                < pow2(l as nat)
    }

    /// No level holds a block and its buddy both free.
    pub open spec fn no_free_buddies(self) -> bool {
        forall|l: int, b: u32|
            0 <= l <= self.levels && #[trigger] self.free[l].contains(b) ==> !self.free[l].contains(
                buddy(b),
            )
    }

    /// The invariant that every operation keeps, whatever is asked of it.
    pub open spec fn wf(self) -> bool {
        &&& self.shape_ok()
        &&& self.indices_ok()
        &&& self.no_free_buddies()
    }

    /// Whether `addr` lies in the arena.
    pub open spec fn contains(self, addr: int) -> bool {
        self.start <= addr < self.end
    }

    /// The level that serves a request of `size` bytes: the deepest whose
    /// blocks hold `size` bytes.
    pub open spec fn is_level_for(self, size: int, level: int) -> bool {
        is_level(self.block_size, self.levels, size, level)
    }

    /// The level that serves a request of `size` bytes, for a request that the
    /// arena can hold.
    pub open spec fn request_level(self, size: int) -> int {
        level_of(self.block_size, self.levels, size)
    }

    /// The number of the block of `level` in which `addr` lies.
    pub open spec fn block_of(self, level: int, addr: int) -> int {
        (addr - self.start) / self.block_bytes(level)
    }

    /// The first address of block `b` of `level`.
    pub open spec fn block_addr(self, level: int, b: int) -> int {
        self.start + b * self.block_bytes(level)
    }

    /// What a request for `size` bytes aligned to `align` yields: the address
    /// handed out and the free lists that remain, or `None` where the request
    /// is larger than the arena or no block is left for it.
    pub open spec fn alloc_result(self, size: int, align: int) -> Option<(int, Seq<Seq<u32>>)> {
        let req = if size >= align { size } else { align };
        if req > self.max_size() {
            None
        } else {
            let level = self.request_level(req);
            match take_block(self.free, level) {
                Some((b, rest)) => Some((self.block_addr(level, b as int), rest)),
                None => None,
            }
        }
    }

    /// The free lists after the block at `addr` that served a request for
    /// `size` bytes aligned to `align` has been given back.
    pub open spec fn dealloc_result(self, addr: int, size: int, align: int) -> Seq<Seq<u32>> {
        let req = if size >= align { size } else { align };
        if req > self.max_size() {
            self.free
        } else {
            let level = self.request_level(req);
            release(self.free, level, self.block_of(level, addr) as u32)
        }
    }

    /// The larger of the two numbers of a request: the bytes that its block
    /// has to hold.
    pub open spec fn request_size(size: int, align: int) -> int {
        if size >= align { size } else { align }
    }

    /// The bytes of the block that serves a request which the arena can hold.
    pub open spec fn request_bytes(self, size: int, align: int) -> int {
        self.block_bytes(self.request_level(Self::request_size(size, align)))
    }

    /// Whether a request can be served: the arena can hold it, and the level
    /// of the request or one above it holds a free block.
    pub open spec fn can_serve(self, size: int, align: int) -> bool {
        &&& Self::request_size(size, align) <= self.max_size()
        &&& exists|l: int|
            0 <= l <= self.request_level(Self::request_size(size, align)) && (
            #[trigger] self.free[l]).len() > 0
    }

    /// The arena after a request: as it was, where the request is not served.
    pub open spec fn after_alloc(self, size: int, align: int) -> Arena {
        match self.alloc_result(size, align) {
            Some((_, rest)) => self.with_free(rest),
            None => self,
        }
    }

    /// The first address of the block of `level` in which `addr` lies.
    pub open spec fn block_start(self, level: int, addr: int) -> int {
        self.block_addr(level, self.block_of(level, addr))
    }

    /// The same arena with other free lists.
    pub open spec fn with_free(self, free: Seq<Seq<u32>>) -> Arena {
        Arena { free, ..self }
    }

    /// Whether the only free block is the root.
    pub open spec fn is_fresh(self) -> bool {
        self.free == fresh_lists(self.levels)
    }
}

/// The figures of an arena, for a report on it.
pub struct ArenaReport {
    /// The first address of the arena.
    pub start: usize,
    /// One past its last address.
    pub end: usize,
    /// The number of its levels, the leaf level included.
    pub levels: usize,
    /// The size of a leaf block.
    pub block_size: u16,
    /// The largest request that it can serve.
    pub max_alloc: usize,
    /// The number of free blocks of every level, from the root down.
    pub free: Vec<usize>,
}

impl ArenaReport {
    /// Whether these are the figures of the arena `a`.
    pub open spec fn shows(&self, a: Arena) -> bool {
        &&& self.start == a.start
        &&& self.end == a.end
        &&& self.levels == a.levels + 1
        &&& self.block_size == a.block_size
        &&& self.max_alloc == a.max_size()
        &&& self.free@.len() == a.levels + 1
        &&& forall|l: int| 0 <= l <= a.levels ==> self.free@[l] == (#[trigger] a.free[l]).len()
    }
}

/// One arena of host-shared memory under binary-buddy management.
pub struct BuddyAllocator {
    start_addr: usize,
    end_addr: usize,
    num_levels: u8,
    block_size: u16,
    free_lists: Vec<Vec<u32>>,
}

/// The free lists as sequences of sequences.
pub open spec fn lists_view(lists: Seq<Vec<u32>>) -> Seq<Seq<u32>> {
    Seq::new(lists.len(), |l: int| lists[l]@)
}

impl View for BuddyAllocator {
    type V = Arena;

    closed spec fn view(&self) -> Arena {
        Arena {
            start: self.start_addr as int,
            end: self.end_addr as int,
            block_size: self.block_size as int,
            levels: self.num_levels as int,
            free: lists_view(self.free_lists@),
        }
    }
}

/// `pow2` is monotone.
pub proof fn lemma_pow2_monotone(a: nat, b: nat)
    requires
        a <= b,
    ensures
        pow2(a) <= pow2(b),
{
    if a < b {
        lemma_pow2_strictly_increases(a, b);
    }
}

/// A block of level `l` is `2^(n-l)` leaves: the bytes of the root divided by
/// `2^l`.
pub proof fn lemma_block_bytes(block_size: int, n: nat, l: nat)
    requires
        l <= n,
        block_size >= 0,
    ensures
        (block_size * pow2(n)) / (pow2(l) as int) == block_size * pow2((n - l) as nat),
        block_size * pow2(n) == (block_size * pow2((n - l) as nat)) * pow2(l),
{
    lemma_pow2_adds((n - l) as nat, l);
    lemma_pow2_pos(l);
    let q = block_size * pow2((n - l) as nat);
    lemma_mul_is_associative(block_size, pow2((n - l) as nat) as int, pow2(l) as int);
    lemma_div_by_multiple(q, pow2(l) as int);
}

/// A shift that keeps a positive value within `usize` is shorter than the width
/// of `usize`.
pub proof fn lemma_shift_in_range(x: int, n: nat)
    requires
        x >= 1,
        n <= 32,
        x * pow2(n) <= usize::MAX,
    ensures
        n < usize::BITS,
{
    lemma2_to64();
    if n == 32 {
        assert(x * pow2(32) >= pow2(32)) by (nonlinear_arith)
            requires
                x >= 1,
        ;
    }
}

/// Whether `x` is a power of two.
pub fn is_power_of_two(x: u16) -> (r: bool)
    ensures
        r == is_pow2(x as int),
{
    if x == 0 {
        proof {
            reveal(is_pow2);
        }
        return false;
    }
    let mut rest: u16 = x;
    while rest % 2 == 0
        invariant
            rest > 0,
            is_pow2(rest as int) == is_pow2(x as int),
        decreases rest,
    {
        proof {
            reveal(is_pow2);
        }
        rest = rest / 2;
    }
    proof {
        reveal(is_pow2);
    }
    rest == 1
}

/// The place of the first `b` in `list`, if there is one.
fn position(list: &Vec<u32>, b: u32) -> (r: Option<usize>)
    ensures
        r is None <==> !list@.contains(b),
        r matches Some(i) ==> first_at(list@, b, i as int),
{
    let mut i: usize = 0;
    while i < list.len()
        invariant
            i <= list.len(),
            forall|j: int| 0 <= j < i ==> list@[j] != b,
        decreases list.len() - i,
    {
        if list[i] == b {
            return Some(i);
        }
        i = i + 1;
    }
    None
}

/// Flipping the lowest bit of a block number gives its buddy.
pub proof fn lemma_xor_one(b: u32)
    ensures
        b ^ 1 == buddy(b),
        buddy(b) / 2 == b / 2,
        buddy(b) != b,
        buddy(buddy(b)) == b,
{
    assert(b % 2 == 0 ==> b ^ 1 == b + 1) by (bit_vector);
    assert(b % 2 != 0 ==> b ^ 1 == b - 1) by (bit_vector);
}

impl Arena {
    /// At most one level serves a request.
    pub proof fn lemma_level_unique(self, size: int, level: int)
        requires
            self.shape_ok(),
            self.is_level_for(size, level),
        ensures
            self.request_level(size) == level,
    {
        let other = self.request_level(size);
        assert(self.is_level_for(size, other));
        if other < level {
            self.lemma_block_bytes_monotone(other + 1, level);
        } else if level < other {
            self.lemma_block_bytes_monotone(level + 1, other);
        }
    }

    /// Blocks get no larger on the way down.
    pub proof fn lemma_block_bytes_monotone(self, upper: int, lower: int)
        requires
            self.shape_ok(),
            0 <= upper <= lower <= self.levels,
        ensures
            self.block_bytes(lower) <= self.block_bytes(upper),
    {
        lemma_pow2_monotone((self.levels - lower) as nat, (self.levels - upper) as nat);
        assert(self.block_size * pow2((self.levels - lower) as nat) <= self.block_size * pow2(
            (self.levels - upper) as nat,
        )) by (nonlinear_arith)
            requires
                self.block_size > 0,
                pow2((self.levels - lower) as nat) <= pow2((self.levels - upper) as nat),
        ;
    }

    /// A block of `level` lies within the root block.
    pub proof fn lemma_block_within(self, level: int, b: int)
        requires
            self.shape_ok(),
            0 <= level <= self.levels,
            0 <= b < pow2(level as nat),
        ensures
            0 <= b * self.block_bytes(level),
            b * self.block_bytes(level) + self.block_bytes(level) <= self.max_size(),
            self.block_bytes(level) > 0,
    {
        lemma_block_bytes(self.block_size, self.levels as nat, level as nat);
        lemma_pow2_pos((self.levels - level) as nat);
        let bytes = self.block_bytes(level);
        let p = pow2(level as nat) as int;
        assert(bytes > 0) by (nonlinear_arith)
            requires
                bytes == self.block_size * pow2((self.levels - level) as nat),
                self.block_size > 0,
                pow2((self.levels - level) as nat) > 0,
        ;
        assert(b * bytes + bytes <= bytes * p) by (nonlinear_arith)
            requires
                0 <= b < p,
                bytes > 0,
        ;
        assert(0 <= b * bytes) by (nonlinear_arith)
            requires
                0 <= b,
                bytes > 0,
        ;
    }

    /// An address within the root block lies in a block that exists.
    pub proof fn lemma_block_of_within(self, level: int, addr: int)
        requires
            self.shape_ok(),
            0 <= level <= self.levels,
            self.start <= addr < self.start + self.max_size(),
        ensures
            0 <= self.block_of(level, addr) < pow2(level as nat),
    {
        lemma_block_bytes(self.block_size, self.levels as nat, level as nat);
        self.lemma_block_within(level, 0);
        let bytes = self.block_bytes(level);
        let p = pow2(level as nat) as int;
        let off = addr - self.start;
        lemma_fundamental_div_mod(off, bytes);
        let q = off / bytes;
        assert(0 <= q < p) by (nonlinear_arith)
            requires
                0 <= off < bytes * p,
                bytes > 0,
                off == bytes * q + off % bytes,
                0 <= off % bytes < bytes,
        ;
    }

    /// The state in which `block` has been put last on the free list of
    /// `level` and nothing has been merged yet: all is in order but that the
    /// buddy of `block` may be free beside it.
    pub open spec fn pending_ok(self, level: int, block: u32) -> bool {
        &&& self.shape_ok()
        &&& self.indices_ok()
        &&& 0 <= level <= self.levels
        &&& self.free[level].len() > 0
        &&& self.free[level].last() == block
        &&& self.with_free(self.free.update(level, self.free[level].drop_last())).no_free_buddies()
    }

    /// Putting a block that exists last on a free list leads to a pending
    /// state.
    pub proof fn lemma_push_pending(self, level: int, block: u32)
        requires
            self.wf(),
            0 <= level <= self.levels,
            block < pow2(level as nat),
        ensures
            self.with_free(self.free.update(level, self.free[level].push(block))).pending_ok(
                level,
                block,
            ),
    {
        let pushed = self.free[level].push(block);
        let after = self.with_free(self.free.update(level, pushed));
        assert(pushed.drop_last() =~= self.free[level]);
        assert(after.free.update(level, after.free[level].drop_last()) =~= self.free);
        assert(after.indices_ok()) by {
            assert forall|l: int, i: int|
                0 <= l <= after.levels && 0 <= i < after.free[l].len() implies (
            #[trigger] after.free[l][i]) < pow2(l as nat) by {
                if l == level && i < self.free[l].len() {
                    assert(after.free[l][i] == self.free[l][i]);
                } else if l != level {
                    assert(after.free[l][i] == self.free[l][i]);
                }
            }
        }
    }

    /// Where the buddy is found in a pending state, it is found above the
    /// root, and not in the last place.
    pub proof fn lemma_buddy_found(self, level: int, block: u32, i: int)
        requires
            self.pending_ok(level, block),
            first_at(self.free[level], buddy(block), i),
        ensures
            level > 0,
            i < self.free[level].len() - 1,
            self.free[level].contains(buddy(block)),
            i == choose|i: int| first_at(self.free[level], buddy(block), i),
            block / 2 < pow2((level - 1) as nat),
    {
        lemma_xor_one(block);
        lemma_pow2_pos(0);
        assert(self.free[level][i] < pow2(level as nat));
        assert(self.free[level][self.free[level].len() - 1] < pow2(level as nat));
        if level == 0 {
            assert(pow2(0) == 1) by {
                lemma2_to64();
            }
        } else {
            lemma_pow2_unfold(level as nat);
        }
        let j = choose|j: int| first_at(self.free[level], buddy(block), j);
        if j < i {
        } else if i < j {
        }
    }

    /// One step of merging leads from a pending state to a pending state one
    /// level up.
    pub proof fn lemma_merge_step(self, level: int, block: u32, i: int)
        requires
            self.pending_ok(level, block),
            first_at(self.free[level], buddy(block), i),
        ensures
            level > 0,
            self.with_free(
                self.free.update(level, self.free[level].drop_last().remove(i)).update(
                    level - 1,
                    self.free[level - 1].push((block / 2) as u32),
                ),
            ).pending_ok(level - 1, (block / 2) as u32),
    {
        self.lemma_buddy_found(level, block, i);
        lemma_xor_one(block);
        let rest = self.free[level].drop_last();
        let here = rest.remove(i);
        let parent = (block / 2) as u32;
        let up = self.free.update(level, here).update(level - 1, self.free[level - 1].push(parent));
        let after = self.with_free(up);
        let settled = self.with_free(self.free.update(level, rest));
        assert(settled.no_free_buddies());
        assert(up[level - 1].drop_last() =~= self.free[level - 1]);
        assert(after.indices_ok()) by {
            assert forall|l: int, k: int|
                0 <= l <= after.levels && 0 <= k < after.free[l].len() implies (
            #[trigger] after.free[l][k]) < pow2(l as nat) by {
                if l == level {
                    if k < i {
                        assert(here[k] == self.free[l][k]);
                    } else {
                        assert(here[k] == self.free[l][k + 1]);
                    }
                } else if l == level - 1 {
                    if k < self.free[l].len() {
                        assert(after.free[l][k] == self.free[l][k]);
                    }
                } else {
                    assert(after.free[l][k] == self.free[l][k]);
                }
            }
        }
        let last = after.with_free(up.update(level - 1, up[level - 1].drop_last()));
        assert(last.free =~= self.free.update(level, here));
        assert(last.no_free_buddies()) by {
            assert forall|l: int, b: u32|
                0 <= l <= last.levels && #[trigger] last.free[l].contains(b) implies !last.free[l].contains(
                buddy(b),
            ) by {
                if l == level {
                    lemma_remove_contains(rest, i, b);
                    assert(settled.free[l].contains(b));
                    if here.contains(buddy(b)) {
                        lemma_remove_contains(rest, i, buddy(b));
                        assert(settled.free[l].contains(buddy(b)));
                    }
                } else {
                    assert(settled.free[l] == last.free[l]);
                    assert(settled.free[l].contains(b));
                }
            }
        }
    }

    /// Where the buddy is not free, a pending state is in order as it is.
    pub proof fn lemma_merge_done(self, level: int, block: u32)
        requires
            self.pending_ok(level, block),
            !self.free[level].contains(buddy(block)),
        ensures
            self.wf(),
            merge(self.free, level, block) == self.free,
    {
        lemma_xor_one(block);
        let rest = self.free[level].drop_last();
        let settled = self.with_free(self.free.update(level, rest));
        assert(self.no_free_buddies()) by {
            assert forall|l: int, b: u32|
                0 <= l <= self.levels && #[trigger] self.free[l].contains(b) implies !self.free[l].contains(
                buddy(b),
            ) by {
                if l == level {
                    lemma_xor_one(b);
                    if b == block {
                    } else if buddy(b) == block {
                    } else {
                        lemma_drop_last_contains(self.free[l], b);
                        assert(settled.free[l].contains(b));
                        if self.free[l].contains(buddy(b)) {
                            lemma_drop_last_contains(self.free[l], buddy(b));
                            assert(settled.free[l].contains(buddy(b)));
                        }
                    }
                } else {
                    assert(settled.free[l] == self.free[l]);
                    assert(settled.free[l].contains(b));
                }
            }
        }
    }

    /// Taking a block leaves the arena in order, hands out a block that
    /// exists, and touches no level below the one asked.
    pub proof fn lemma_take_block_wf(self, level: int)
        requires
            self.wf(),
            0 <= level <= self.levels,
        ensures
            match take_block(self.free, level) {
                Some((b, rest)) => {
                    &&& self.with_free(rest).wf()
                    &&& b < pow2(level as nat)
                    &&& forall|l: int| level < l <= self.levels ==> rest[l] == self.free[l]
                },
                None => true,
            },
        decreases level,
    {
        if self.free[level].len() > 0 {
            let rest = self.free.update(level, self.free[level].drop_last());
            let after = self.with_free(rest);
            assert(self.free[level][self.free[level].len() - 1] < pow2(level as nat));
            assert(after.indices_ok()) by {
                assert forall|l: int, i: int|
                    0 <= l <= after.levels && 0 <= i < after.free[l].len() implies (
                #[trigger] after.free[l][i]) < pow2(l as nat) by {
                    assert(after.free[l][i] == self.free[l][i]);
                }
            }
            assert(after.no_free_buddies()) by {
                assert forall|l: int, b: u32|
                    0 <= l <= after.levels && #[trigger] after.free[l].contains(b) implies !after.free[l].contains(
                    buddy(b),
                ) by {
                    if l == level {
                        lemma_drop_last_sub(self.free[l], b);
                        assert(self.free[l].contains(b));
                        if after.free[l].contains(buddy(b)) {
                            lemma_drop_last_sub(self.free[l], buddy(b));
                        }
                    } else {
                        assert(self.free[l].contains(b));
                    }
                }
            }
        } else if level > 0 {
            self.lemma_take_block_wf(level - 1);
            match take_block(self.free, level - 1) {
                Some((b, mid)) => {
                    let low = (2 * b) as u32;
                    let high = (2 * b + 1) as u32;
                    lemma_pow2_unfold(level as nat);
                    lemma2_to64();
                    lemma_pow2_monotone(level as nat, 32);
                    assert(mid[level] == self.free[level]);
                    assert(mid[level].push(high) =~= seq![high]);
                    let rest = mid.update(level, mid[level].push(high));
                    let before = self.with_free(mid);
                    let after = self.with_free(rest);
                    assert(after.indices_ok()) by {
                        assert forall|l: int, i: int|
                            0 <= l <= after.levels && 0 <= i < after.free[l].len() implies (
                        #[trigger] after.free[l][i]) < pow2(l as nat) by {
                            if l != level {
                                assert(after.free[l][i] == before.free[l][i]);
                            }
                        }
                    }
                    assert(after.no_free_buddies()) by {
                        assert forall|l: int, c: u32|
                            0 <= l <= after.levels && #[trigger] after.free[l].contains(
                                c,
                            ) implies !after.free[l].contains(buddy(c)) by {
                            if l == level {
                                lemma_xor_one(c);
                                assert(c == high);
                                if after.free[l].contains(buddy(c)) {
                                    assert(buddy(c) == high);
                                }
                            } else {
                                assert(before.free[l].contains(c));
                            }
                        }
                    }
                },
                None => {},
            }
        }
    }
}

/// What stands in a sequence after one element has left it stood in it before.
pub proof fn lemma_remove_contains(s: Seq<u32>, i: int, b: u32)
    requires
        0 <= i < s.len(),
        s.remove(i).contains(b),
    ensures
        s.contains(b),
{
    let k = choose|k: int| 0 <= k < s.remove(i).len() && s.remove(i)[k] == b;
    if k < i {
        assert(s[k] == b);
    } else {
        assert(s[k + 1] == b);
    }
}

/// What stands in a sequence without its last element stands in the sequence.
pub proof fn lemma_drop_last_sub(s: Seq<u32>, b: u32)
    requires
        s.len() > 0,
        s.drop_last().contains(b),
    ensures
        s.contains(b),
{
    let k = choose|k: int| 0 <= k < s.drop_last().len() && s.drop_last()[k] == b;
    assert(s[k] == b);
}

/// What stands in a sequence and is not its last element stands before it.
pub proof fn lemma_drop_last_contains(s: Seq<u32>, b: u32)
    requires
        s.len() > 0,
        s.contains(b),
        s.last() != b,
    ensures
        s.drop_last().contains(b),
{
    let k = choose|k: int| 0 <= k < s.len() && s[k] == b;
    assert(s.drop_last()[k] == b);
}

impl Arena {
    /// Whether `addr` lies in the root block.
    pub open spec fn in_root(self, addr: int) -> bool {
        self.start <= addr < self.start + self.max_size()
    }

    /// Whether the block of `level` in which `addr` lies is free.
    pub open spec fn covers(self, level: int, addr: int) -> bool {
        0 <= level <= self.levels && self.free[level].contains(self.block_of(level, addr) as u32)
    }

    /// Whether the byte at `addr` belongs to a free block.
    pub open spec fn byte_free(self, addr: int) -> bool {
        self.in_root(addr) && exists|l: int| #[trigger] self.covers(l, addr)
    }

    /// Whether every byte of `[addr, addr + len)` belongs to a free block.
    pub open spec fn span_free(self, addr: int, len: int) -> bool {
        forall|x: int| addr <= x < addr + len ==> #[trigger] self.byte_free(x)
    }

    /// Whether no byte of `[addr, addr + len)` belongs to a free block.
    pub open spec fn span_used(self, addr: int, len: int) -> bool {
        forall|x: int| addr <= x < addr + len ==> !#[trigger] self.byte_free(x)
    }

    /// No block is free twice and no free block lies inside another: every
    /// byte belongs to at most one free block.
    pub open spec fn tidy(self) -> bool {
        &&& forall|l: int| 0 <= l <= self.levels ==> #[trigger] self.free[l].no_duplicates()
        &&& forall|x: int, l1: int, l2: int|
            self.in_root(x) && #[trigger] self.covers(l1, x) && #[trigger] self.covers(l2, x) ==> l1
                == l2
    }

    /// Whether the arena is exactly as long as its root block, so that every
    /// block lies within it.
    pub open spec fn exact(self) -> bool {
        self.end - self.start == self.max_size()
    }

    /// Whether every block of the arena lies within it and none begins at
    /// address zero: the arena is exact and does not begin at zero.
    pub open spec fn regular(self) -> bool {
        self.start > 0 && self.exact()
    }

    /// Whether `self` and `other` have the same free bytes.
    pub open spec fn same_free_bytes(self, other: Arena) -> bool {
        forall|x: int| self.byte_free(x) == other.byte_free(x)
    }

    /// The free bytes of `self` are those of `before` and the bytes of
    /// `[addr, addr + len)`.
    pub open spec fn gained(self, before: Arena, addr: int, len: int) -> bool {
        forall|x: int|
            #![trigger self.byte_free(x)]
            #![trigger before.byte_free(x)]
            self.byte_free(x) <==> before.byte_free(x) || (before.in_root(x) && addr <= x < addr
                + len)
    }

    /// The free bytes of `self` are those of `before` but for the bytes of
    /// `[addr, addr + len)`.
    pub open spec fn lost(self, before: Arena, addr: int, len: int) -> bool {
        forall|x: int|
            #![trigger self.byte_free(x)]
            #![trigger before.byte_free(x)]
            self.byte_free(x) <==> before.byte_free(x) && !(addr <= x < addr + len)
    }

    /// The block in which an address lies is one half of the block in which it
    /// lies one level up.
    pub proof fn lemma_parent(self, level: int, addr: int)
        requires
            self.shape_ok(),
            0 < level <= self.levels,
            self.in_root(addr),
        ensures
            self.block_of(level - 1, addr) == self.block_of(level, addr) / 2,
            self.block_bytes(level - 1) == 2 * self.block_bytes(level),
    {
        let bytes = self.block_bytes(level);
        lemma_pow2_pos(level as nat);
        self.lemma_block_within(level, 0);
        lemma_pow2_unfold((self.levels - level + 1) as nat);
        assert(self.block_bytes(level - 1) == bytes * 2) by (nonlinear_arith)
            requires
                self.block_bytes(level - 1) == self.block_size * pow2(
                    (self.levels - level + 1) as nat,
                ),
                bytes == self.block_size * pow2((self.levels - level) as nat),
                pow2((self.levels - level + 1) as nat) == 2 * pow2((self.levels - level) as nat),
        ;
        lemma_div_denominator(addr - self.start, bytes, 2);
    }

    /// The bytes of a block are those from its first address up to the first
    /// address of the next block.
    pub proof fn lemma_block_span(self, level: int, b: int, addr: int)
        requires
            self.shape_ok(),
            0 <= level <= self.levels,
            0 <= b < pow2(level as nat),
        ensures
            (self.in_root(addr) && self.block_of(level, addr) == b) <==> self.block_addr(level, b)
                <= addr < self.block_addr(level, b) + self.block_bytes(level),
            self.start <= self.block_addr(level, b),
            self.block_addr(level, b) + self.block_bytes(level) <= self.start + self.max_size(),
            (self.block_addr(level, b) - self.start) % self.block_bytes(level) == 0,
            self.block_bytes(level) > 0,
    {
        self.lemma_block_within(level, b);
        let bytes = self.block_bytes(level);
        let off = addr - self.start;
        lemma_fundamental_div_mod(off, bytes);
        if self.in_root(addr) {
            self.lemma_block_of_within(level, addr);
        }
        assert((off >= 0 && off / bytes == b) <==> (b * bytes <= off < b * bytes + bytes))
            by (nonlinear_arith)
            requires
                bytes > 0,
                b >= 0,
                off == bytes * (off / bytes) + off % bytes,
                0 <= off % bytes < bytes,
        ;
        vstd::arithmetic::div_mod::lemma_mod_multiples_basic(b, bytes);
    }

    /// An address in the parent of a block lies in the block or in its buddy.
    pub proof fn lemma_children(self, level: int, block: u32, addr: int)
        requires
            self.shape_ok(),
            0 < level <= self.levels,
            self.in_root(addr),
            block < pow2(level as nat),
            self.block_of(level - 1, addr) == block / 2,
        ensures
            self.block_of(level, addr) as u32 == block || self.block_of(level, addr) as u32
                == buddy(block),
            0 <= self.block_of(level, addr) <= u32::MAX,
    {
        self.lemma_parent(level, addr);
        self.lemma_block_of_within(level, addr);
        lemma2_to64();
        lemma_pow2_monotone(level as nat, 32);
    }

    /// Two addresses in one block are in one block on every level further up.
    pub proof fn lemma_same_ancestors(self, level: int, upper: int, x: int, y: int)
        requires
            self.shape_ok(),
            0 <= upper <= level <= self.levels,
            self.in_root(x),
            self.in_root(y),
            self.block_of(level, x) == self.block_of(level, y),
        ensures
            self.block_of(upper, x) == self.block_of(upper, y),
        decreases level - upper,
    {
        if upper < level {
            self.lemma_parent(level, x);
            self.lemma_parent(level, y);
            self.lemma_same_ancestors(level - 1, upper, x, y);
        }
    }

    /// Taking a block from a tidy arena leaves it tidy; the bytes of the block
    /// were free and are free no longer, and no other byte changes.
    pub proof fn lemma_take_block_tidy(self, level: int)
        requires
            self.wf(),
            self.tidy(),
            0 <= level <= self.levels,
            take_block(self.free, level) is Some,
        ensures
            ({
                let (b, rest) = take_block(self.free, level)->0;
                let after = self.with_free(rest);
                &&& after.tidy()
                &&& forall|x: int|
                    self.in_root(x) ==> (#[trigger] after.byte_free(x) <==> self.byte_free(x)
                        && self.block_of(level, x) != b)
                &&& forall|x: int|
                    self.in_root(x) && self.block_of(level, x) == b ==> #[trigger] self.byte_free(x)
            }),
        decreases level,
    {
        let (b, rest) = take_block(self.free, level)->0;
        let after = self.with_free(rest);
        if self.free[level].len() > 0 {
            let list = self.free[level];
            assert(list.no_duplicates());
            assert(list[list.len() - 1] == b);
            assert(!list.drop_last().contains(b)) by {
                if list.drop_last().contains(b) {
                    let k = choose|k: int| 0 <= k < list.drop_last().len() && list.drop_last()[k] == b;
                    assert(list[k] == list[list.len() - 1]);
                }
            }
            assert forall|x: int, l: int| #[trigger] after.covers(l, x) implies self.covers(l, x) by {
                if l == level {
                    lemma_drop_last_sub(list, self.block_of(l, x) as u32);
                }
            }
            assert forall|l: int| 0 <= l <= after.levels implies #[trigger] after.free[l].no_duplicates() by {
                assert(self.free[l].no_duplicates());
            }
            assert forall|x: int| self.in_root(x) implies (#[trigger] after.byte_free(x)
                <==> self.byte_free(x) && self.block_of(level, x) != b) by {
                self.lemma_block_of_within(level, x);
                lemma2_to64();
                lemma_pow2_monotone(level as nat, 32);
                if after.byte_free(x) {
                    let l = choose|l: int| after.covers(l, x);
                    assert(self.covers(l, x));
                    if self.block_of(level, x) == b {
                        assert(self.covers(level, x));
                    }
                }
                if self.byte_free(x) && self.block_of(level, x) != b {
                    let l = choose|l: int| self.covers(l, x);
                    if l == level {
                        lemma_drop_last_contains(list, self.block_of(l, x) as u32);
                    }
                    assert(after.covers(l, x));
                }
            }
            assert forall|x: int| self.in_root(x) && self.block_of(level, x) == b implies #[trigger] self.byte_free(
                x,
            ) by {
                assert(self.covers(level, x));
            }
        } else {
            self.lemma_take_block_tidy(level - 1);
            self.lemma_take_block_wf(level - 1);
            let (p, mid) = take_block(self.free, level - 1)->0;
            let before = self.with_free(mid);
            let high = (2 * p + 1) as u32;
            lemma_pow2_unfold(level as nat);
            lemma2_to64();
            lemma_pow2_monotone(level as nat, 32);
            assert(mid[level] == self.free[level]);
            assert(rest[level] =~= seq![high]);
            assert forall|x: int, l: int| #[trigger] after.covers(l, x) implies (if l == level {
                self.block_of(level, x) as u32 == high
            } else {
                before.covers(l, x)
            }) by {
                if l == level {
                    let c = self.block_of(level, x) as u32;
                    let k = choose|k: int| 0 <= k < rest[level].len() && rest[level][k] == c;
                }
            }
            assert forall|x: int| self.in_root(x) implies (#[trigger] after.byte_free(x)
                <==> self.byte_free(x) && self.block_of(level, x) != b) by {
                self.lemma_block_of_within(level, x);
                self.lemma_parent(level, x);
                if after.byte_free(x) {
                    let l = choose|l: int| after.covers(l, x);
                    if l != level {
                        assert(before.byte_free(x));
                    }
                }
                if self.byte_free(x) && self.block_of(level, x) != b {
                    if self.block_of(level - 1, x) != p {
                        assert(before.byte_free(x));
                        let l = choose|l: int| before.covers(l, x);
                        assert(l != level) by {
                            if l == level {
                                let c = self.block_of(level, x) as u32;
                                assert(mid[level].contains(c));
                                let k = choose|k: int| 0 <= k < mid[level].len() && mid[level][k] == c;
                            }
                        }
                        assert(after.covers(l, x));
                    } else {
                        assert(self.block_of(level, x) == high);
                        assert(rest[level][0] == high);
                        assert(after.covers(level, x));
                    }
                }
            }
            assert forall|x: int| self.in_root(x) && self.block_of(level, x) == b implies #[trigger] self.byte_free(
                x,
            ) by {
                self.lemma_parent(level, x);
            }
            assert forall|l: int| 0 <= l <= after.levels implies #[trigger] after.free[l].no_duplicates() by {
                if l != level {
                    assert(before.free[l].no_duplicates());
                }
            }
            assert forall|x: int, l1: int, l2: int|
                after.in_root(x) && #[trigger] after.covers(l1, x) && #[trigger] after.covers(
                    l2,
                    x,
                ) implies l1 == l2 by {
                self.lemma_block_of_within(level, x);
                self.lemma_parent(level, x);
                if l1 != level && l2 != level {
                    assert(before.covers(l1, x) && before.covers(l2, x));
                } else if l1 == level && l2 != level {
                    assert(before.covers(l2, x));
                    assert(before.byte_free(x));
                } else if l2 == level && l1 != level {
                    assert(before.covers(l1, x));
                    assert(before.byte_free(x));
                }
            }
        }
    }

    /// Putting a block none of whose bytes is free last on the free list of
    /// its level keeps a tidy arena tidy, and frees the bytes of the block.
    pub proof fn lemma_push_tidy(self, level: int, block: u32)
        requires
            self.wf(),
            self.tidy(),
            0 <= level <= self.levels,
            block < pow2(level as nat),
            self.span_used(self.block_addr(level, block as int), self.block_bytes(level)),
        ensures
            ({
                let after = self.with_free(self.free.update(level, self.free[level].push(block)));
                &&& after.tidy()
                &&& after.gained(
                    self,
                    self.block_addr(level, block as int),
                    self.block_bytes(level),
                )
            }),
    {
        let list = self.free[level];
        let after = self.with_free(self.free.update(level, list.push(block)));
        let first = self.block_addr(level, block as int);
        let bytes = self.block_bytes(level);
        self.lemma_block_span(level, block as int, first);
        assert(!self.byte_free(first));
        assert(!list.contains(block)) by {
            if list.contains(block) {
                assert(self.covers(level, first));
            }
        }
        assert(list.push(block).no_duplicates()) by {
            assert(list.no_duplicates());
            assert forall|i: int, j: int|
                0 <= i < list.push(block).len() && 0 <= j < list.push(block).len() && i
                    != j implies list.push(block)[i] != list.push(block)[j] by {
                if i < list.len() && j < list.len() {
                } else if i < list.len() {
                    assert(list[i] == list.push(block)[i]);
                } else {
                    assert(list[j] == list.push(block)[j]);
                }
            }
        }
        assert forall|l: int| 0 <= l <= after.levels implies #[trigger] after.free[l].no_duplicates() by {
            if l != level {
                assert(self.free[l].no_duplicates());
            }
        }
        assert forall|x: int, l: int| #[trigger] after.covers(l, x) implies self.covers(l, x) || (l
            == level && self.block_of(level, x) as u32 == block) by {
            if l == level {
                let c = self.block_of(level, x) as u32;
                let k = choose|k: int| 0 <= k < list.push(block).len() && list.push(block)[k] == c;
                if k < list.len() {
                    assert(list[k] == c);
                }
            }
        }
        assert forall|x: int, l: int| #[trigger] self.covers(l, x) implies after.covers(l, x) by {
            if l == level {
                let c = self.block_of(level, x) as u32;
                let k = choose|k: int| 0 <= k < list.len() && list[k] == c;
                assert(list.push(block)[k] == c);
            }
        }
        assert forall|x: int|
            #![trigger after.byte_free(x)]
            #![trigger self.byte_free(x)]
            after.byte_free(x) <==> self.byte_free(x) || (self.in_root(x) && first <= x < first
                + bytes) by {
            self.lemma_block_span(level, block as int, x);
            if self.in_root(x) {
                self.lemma_block_of_within(level, x);
                lemma2_to64();
                lemma_pow2_monotone(level as nat, 32);
            }
            if after.byte_free(x) {
                let l = choose|l: int| after.covers(l, x);
                if self.covers(l, x) {
                }
            }
            if self.byte_free(x) {
                let l = choose|l: int| self.covers(l, x);
                assert(after.covers(l, x));
            }
            if self.in_root(x) && first <= x < first + bytes {
                assert(list.push(block)[list.len() as int] == block);
                assert(after.covers(level, x));
            }
        }
        assert forall|x: int, l1: int, l2: int|
            after.in_root(x) && #[trigger] after.covers(l1, x) && #[trigger] after.covers(
                l2,
                x,
            ) implies l1 == l2 by {
            self.lemma_block_span(level, block as int, x);
            self.lemma_block_of_within(level, x);
            lemma2_to64();
            lemma_pow2_monotone(level as nat, 32);
            if self.covers(l1, x) && self.covers(l2, x) {
            } else {
                assert(!self.byte_free(x));
            }
        }
    }

    /// Merging keeps a tidy arena tidy and changes no byte.
    pub proof fn lemma_merge_tidy(self, level: int, block: u32)
        requires
            self.pending_ok(level, block),
            self.tidy(),
        ensures
            ({
                let after = self.with_free(merge(self.free, level, block));
                &&& after.tidy()
                &&& forall|x: int| #[trigger] after.byte_free(x) <==> self.byte_free(x)
            }),
        decreases level,
    {
        if 0 < level && self.free[level].contains(buddy(block)) {
            let list = self.free[level];
            let found = choose|k: int| 0 <= k < list.len() && list[k] == buddy(block);
            lemma_first_exists(list, buddy(block), found);
            let i = choose|i: int| first_at(list, buddy(block), i);
            self.lemma_buddy_found(level, block, i);
            self.lemma_merge_step(level, block, i);
            lemma_xor_one(block);
            let parent = (block / 2) as u32;
            let here = list.drop_last().remove(i);
            let upper = self.free[level - 1];
            let up = self.free.update(level, here).update(level - 1, upper.push(parent));
            let next = self.with_free(up);
            assert(list.no_duplicates());
            assert forall|c: u32| here.contains(c) <==> list.contains(c) && c != block && c != buddy(
                block,
            ) by {
                if here.contains(c) {
                    let k = choose|k: int| 0 <= k < here.len() && here[k] == c;
                    if k < i {
                        assert(list[k] == c);
                    } else {
                        assert(list[k + 1] == c);
                    }
                }
                if list.contains(c) && c != block && c != buddy(block) {
                    let k = choose|k: int| 0 <= k < list.len() && list[k] == c;
                    if k < i {
                        assert(here[k] == c);
                    } else {
                        assert(here[k - 1] == c);
                    }
                }
            }
            assert(here.no_duplicates()) by {
                assert forall|a: int, c: int| 0 <= a < here.len() && 0 <= c < here.len() && a
                    != c implies here[a] != here[c] by {
                    let a2 = if a < i { a } else { a + 1 };
                    let c2 = if c < i { c } else { c + 1 };
                    assert(here[a] == list[a2]);
                    assert(here[c] == list[c2]);
                }
            }
            let first = self.block_addr(level, block as int);
            assert(list[list.len() - 1] == block);
            assert(block < pow2(level as nat));
            self.lemma_block_span(level, block as int, first);
            self.lemma_parent(level, first);
            assert(self.covers(level, first));
            assert(!upper.contains(parent)) by {
                if upper.contains(parent) {
                    assert(self.covers(level - 1, first));
                }
            }
            assert(upper.push(parent).no_duplicates()) by {
                assert(upper.no_duplicates());
                assert forall|a: int, c: int|
                    0 <= a < upper.push(parent).len() && 0 <= c < upper.push(parent).len() && a
                        != c implies upper.push(parent)[a] != upper.push(parent)[c] by {
                    if a < upper.len() && c < upper.len() {
                    } else if a < upper.len() {
                        assert(upper[a] == upper.push(parent)[a]);
                    } else {
                        assert(upper[c] == upper.push(parent)[c]);
                    }
                }
            }
            assert forall|c: u32| upper.push(parent).contains(c) <==> upper.contains(c) || c
                == parent by {
                if upper.push(parent).contains(c) {
                    let k = choose|k: int| 0 <= k < upper.push(parent).len() && upper.push(parent)[k] == c;
                    if k < upper.len() {
                        assert(upper[k] == c);
                    }
                }
                if upper.contains(c) {
                    let k = choose|k: int| 0 <= k < upper.len() && upper[k] == c;
                    assert(upper.push(parent)[k] == c);
                }
                assert(upper.push(parent)[upper.len() as int] == parent);
            }
            assert forall|x: int, l: int| self.in_root(x) implies (#[trigger] next.covers(l, x) <==> if l
                == level {
                self.covers(l, x) && self.block_of(level - 1, x) != parent
            } else if l == level - 1 {
                self.covers(l, x) || self.block_of(level - 1, x) == parent
            } else {
                self.covers(l, x)
            }) by {
                self.lemma_parent(level, x);
                self.lemma_block_of_within(level, x);
                self.lemma_block_of_within(level - 1, x);
                lemma2_to64();
                lemma_pow2_monotone(level as nat, 32);
                lemma_pow2_monotone((level - 1) as nat, 32);
            }
            assert forall|l: int| 0 <= l <= next.levels implies #[trigger] next.free[l].no_duplicates() by {
                if l != level && l != level - 1 {
                    assert(self.free[l].no_duplicates());
                }
            }
            assert forall|x: int, l1: int, l2: int|
                next.in_root(x) && #[trigger] next.covers(l1, x) && #[trigger] next.covers(
                    l2,
                    x,
                ) implies l1 == l2 by {
                if self.block_of(level - 1, x) == parent {
                    self.lemma_children(level, block, x);
                    assert(self.covers(level, x));
                    if l1 != level - 1 {
                        assert(self.covers(l1, x));
                    }
                    if l2 != level - 1 {
                        assert(self.covers(l2, x));
                    }
                } else {
                    assert(self.covers(l1, x) && self.covers(l2, x));
                }
            }
            assert forall|x: int| #[trigger] next.byte_free(x) <==> self.byte_free(x) by {
                if next.byte_free(x) {
                    let l = choose|l: int| next.covers(l, x);
                    if self.block_of(level - 1, x) == parent {
                        self.lemma_children(level, block, x);
                        assert(self.covers(level, x));
                    } else {
                        assert(self.covers(l, x));
                    }
                }
                if self.byte_free(x) {
                    let l = choose|l: int| self.covers(l, x);
                    if self.block_of(level - 1, x) == parent {
                        assert(next.covers(level - 1, x));
                    } else {
                        assert(next.covers(l, x));
                    }
                }
            }
            next.lemma_merge_tidy(level - 1, parent);
        }
    }

    /// Giving back a block none of whose bytes is free keeps a tidy arena
    /// tidy, and frees the bytes of the block and no others.
    pub proof fn lemma_release_tidy(self, level: int, block: u32)
        requires
            self.wf(),
            self.tidy(),
            0 <= level <= self.levels,
            block < pow2(level as nat),
            self.span_used(self.block_addr(level, block as int), self.block_bytes(level)),
        ensures
            ({
                let after = self.with_free(release(self.free, level, block));
                &&& after.tidy()
                &&& after.gained(
                    self,
                    self.block_addr(level, block as int),
                    self.block_bytes(level),
                )
            }),
    {
        self.lemma_push_tidy(level, block);
        self.lemma_push_pending(level, block);
        let pushed = self.with_free(self.free.update(level, self.free[level].push(block)));
        pushed.lemma_merge_tidy(level, block);
    }

    /// A tidy arena all of whose bytes are free is a fresh one: its only free
    /// block is the root.
    pub proof fn lemma_all_free_is_fresh(self)
        requires
            self.wf(),
            self.tidy(),
            self.span_free(self.start, self.max_size()),
        ensures
            self.is_fresh(),
    {
        self.lemma_lower_levels_empty(1);
        lemma_pow2_pos(0);
        let root = self.free[0];
        lemma2_to64();
        assert(self.in_root(self.start)) by {
            self.lemma_block_within(0, 0);
        }
        assert(self.byte_free(self.start));
        let l = choose|l: int| self.covers(l, self.start);
        assert(l == 0) by {
            if l > 0 {
                assert(self.free[l].len() == 0);
                let k = choose|k: int|
                    0 <= k < self.free[l].len() && self.free[l][k] == self.block_of(
                        l,
                        self.start,
                    ) as u32;
            }
        }
        let k = choose|k: int|
            0 <= k < root.len() && root[k] == self.block_of(0, self.start) as u32;
        assert(root.no_duplicates());
        assert(root.len() == 1) by {
            if root.len() > 1 {
                assert(root[0] < pow2(0));
                assert(root[1] < pow2(0));
            }
        }
        assert(root[0] < pow2(0));
        assert(root =~= seq![0u32]);
        assert(self.free =~= fresh_lists(self.levels)) by {
            assert forall|j: int| 0 <= j < self.free.len() implies self.free[j] == fresh_lists(
                self.levels,
            )[j] by {
                if j > 0 {
                    assert(self.free[j].len() == 0);
                    assert(self.free[j] =~= Seq::<u32>::empty());
                }
            }
        }
    }

    /// In a tidy arena all of whose bytes are free, no level from `from` down
    /// holds a free block.
    proof fn lemma_lower_levels_empty(self, from: int)
        requires
            self.wf(),
            self.tidy(),
            self.span_free(self.start, self.max_size()),
            1 <= from <= self.levels + 1,
        ensures
            forall|l: int| from <= l <= self.levels ==> (#[trigger] self.free[l]).len() == 0,
        decreases self.levels + 1 - from,
    {
        if from <= self.levels {
            self.lemma_lower_levels_empty(from + 1);
            let list = self.free[from];
            if list.len() > 0 {
                let c = list[0];
                assert(list.contains(c));
                assert(c < pow2(from as nat));
                lemma_xor_one(c);
                lemma_pow2_unfold(from as nat);
                let other = buddy(c);
                assert(other < pow2(from as nat));
                let x = self.block_addr(from, other as int);
                let y = self.block_addr(from, c as int);
                self.lemma_block_span(from, other as int, x);
                self.lemma_block_span(from, c as int, y);
                assert(self.byte_free(x));
                let l = choose|l: int| self.covers(l, x);
                assert(self.covers(from, y));
                if l > from {
                    assert(self.free[l].len() == 0);
                    let k = choose|k: int|
                        0 <= k < self.free[l].len() && self.free[l][k] == self.block_of(l, x) as u32;
                } else if l == from {
                } else {
                    self.lemma_parent(from, x);
                    self.lemma_parent(from, y);
                    self.lemma_same_ancestors(from - 1, l, x, y);
                    assert(self.covers(l, y));
                }
            }
        }
    }

    /// A block lies within its parent.
    pub proof fn lemma_child_span(self, level: int, c: int)
        requires
            self.shape_ok(),
            0 <= level < self.levels,
            0 <= c < pow2((level + 1) as nat),
        ensures
            self.block_addr(level, c / 2) <= self.block_addr(level + 1, c),
            self.block_addr(level + 1, c) + self.block_bytes(level + 1) <= self.block_addr(
                level,
                c / 2,
            ) + self.block_bytes(level),
    {
        let small = self.block_bytes(level + 1);
        let big = self.block_bytes(level);
        lemma_pow2_unfold((self.levels - level) as nat);
        lemma_pow2_pos((self.levels - level - 1) as nat);
        assert(big == 2 * small && small > 0) by (nonlinear_arith)
            requires
                big == self.block_size * pow2((self.levels - level) as nat),
                small == self.block_size * pow2((self.levels - level - 1) as nat),
                pow2((self.levels - level) as nat) == 2 * pow2((self.levels - level - 1) as nat),
                self.block_size > 0,
                pow2((self.levels - level - 1) as nat) > 0,
        ;
        assert((c / 2) * big <= c * small && c * small + small <= (c / 2) * big + big)
            by (nonlinear_arith)
            requires
                big == 2 * small,
                small > 0,
                c >= 0,
                c == 2 * (c / 2) + c % 2,
                0 <= c % 2 < 2,
        ;
    }

    /// In a tidy arena, an address whose block of `level` is wholly free lies
    /// in a free block of that level or of one above it: free blocks are as
    /// large as they can be.
    pub proof fn lemma_free_block_above(self, level: int, x: int)
        requires
            self.wf(),
            self.tidy(),
            0 <= level <= self.levels,
            self.in_root(x),
            self.span_free(self.block_start(level, x), self.block_bytes(level)),
        ensures
            exists|l: int| 0 <= l <= level && self.covers(l, x),
        decreases self.levels - level,
    {
        let b = self.block_of(level, x);
        self.lemma_block_of_within(level, x);
        self.lemma_block_span(level, b, x);
        assert(self.byte_free(x));
        let l0 = choose|l: int| self.covers(l, x);
        if l0 > level {
            let c = self.block_of(level + 1, x);
            self.lemma_parent(level + 1, x);
            self.lemma_block_of_within(level + 1, x);
            self.lemma_block_span(level + 1, c, x);
            self.lemma_child_span(level, c);
            lemma2_to64();
            lemma_pow2_monotone((level + 1) as nat, 32);
            let o = buddy(c as u32);
            lemma_xor_one(c as u32);
            lemma_pow2_unfold((level + 1) as nat);
            assert(o < pow2((level + 1) as nat));
            let y = self.block_addr(level + 1, o as int);
            self.lemma_block_span(level + 1, o as int, y);
            self.lemma_child_span(level, o as int);
            self.lemma_parent(level + 1, y);
            assert(self.block_of(level, y) == b);
            assert(self.span_free(self.block_start(level + 1, x), self.block_bytes(level + 1)));
            assert(self.span_free(self.block_start(level + 1, y), self.block_bytes(level + 1)));
            self.lemma_free_block_above(level + 1, x);
            let l1 = choose|l: int| 0 <= l <= level + 1 && self.covers(l, x);
            assert(l1 == l0);
            self.lemma_free_block_above(level + 1, y);
            let l2 = choose|l: int| 0 <= l <= level + 1 && self.covers(l, y);
            if l2 == level + 1 {
                assert(self.free[level + 1].contains(c as u32));
                assert(self.free[level + 1].contains(o));
                assert(false);
            } else {
                self.lemma_same_ancestors(level, l2, x, y);
                assert(self.covers(l2, x));
                assert(false);
            }
        }
    }

    /// Tidy arenas over the same range with the same free bytes hold the same
    /// free blocks on every level, in whatever order.
    pub proof fn lemma_same_blocks(self, other: Arena)
        requires
            self.wf(),
            self.tidy(),
            other.wf(),
            other.tidy(),
            other.with_free(self.free) == self,
            self.same_free_bytes(other),
        ensures
            forall|l: int, c: u32|
                0 <= l <= self.levels ==> (#[trigger] self.free[l].contains(c)
                    <==> other.free[l].contains(c)),
    {
        assert forall|l: int, c: u32| 0 <= l <= self.levels implies (#[trigger] self.free[l].contains(
            c,
        ) <==> other.free[l].contains(c)) by {
            if self.free[l].contains(c) {
                self.lemma_block_kept(other, l, c);
            }
            if other.free[l].contains(c) {
                assert(self.with_free(other.free) == other);
                assert forall|x: int| other.byte_free(x) == self.byte_free(x) by {}
                other.lemma_block_kept(self, l, c);
            }
        }
    }

    /// A free block of a tidy arena is a free block of every tidy arena over
    /// the same range with the same free bytes.
    pub proof fn lemma_block_kept(self, other: Arena, l: int, c: u32)
        requires
            self.wf(),
            self.tidy(),
            other.wf(),
            other.tidy(),
            other.with_free(self.free) == self,
            self.same_free_bytes(other),
            0 <= l <= self.levels,
            self.free[l].contains(c),
        ensures
            other.free[l].contains(c),
    {
        let k = choose|k: int| 0 <= k < self.free[l].len() && self.free[l][k] == c;
        assert(c < pow2(l as nat));
        let x = self.block_addr(l, c as int);
        self.lemma_block_span(l, c as int, x);
        assert(self.covers(l, x));
        assert forall|y: int| x <= y < x + self.block_bytes(l) implies #[trigger] self.byte_free(
            y,
        ) by {
            self.lemma_block_span(l, c as int, y);
            assert(self.covers(l, y));
        }
        assert(other.block_start(l, x) == x);
        assert(other.span_free(x, other.block_bytes(l))) by {
            assert forall|y: int| x <= y < x + other.block_bytes(l) implies #[trigger] other.byte_free(
                y,
            ) by {
                assert(self.byte_free(y));
            }
        }
        other.lemma_free_block_above(l, x);
        let up = choose|up: int| 0 <= up <= l && other.covers(up, x);
        if up < l {
            let p = other.block_of(l - 1, x);
            other.lemma_block_of_within(l - 1, x);
            other.lemma_block_of_within(up, x);
            let top = other.block_of(up, x);
            other.lemma_block_span(up, top, x);
            assert forall|y: int|
                self.block_start(l - 1, x) <= y < self.block_start(l - 1, x) + self.block_bytes(
                    l - 1,
                ) implies #[trigger] self.byte_free(y) by {
                self.lemma_block_span(l - 1, p, y);
                self.lemma_same_ancestors(l - 1, up, x, y);
                other.lemma_block_span(up, top, y);
                assert(other.covers(up, y));
                assert(other.byte_free(y));
            }
            self.lemma_free_block_above(l - 1, x);
            let l1 = choose|l1: int| 0 <= l1 <= l - 1 && self.covers(l1, x);
            assert(false);
        }
    }

    /// An arena has one number of levels.
    pub proof fn lemma_levels_unique(span: int, block_size: int, n: nat, m: nat)
        requires
            block_size > 0,
            Self::levels_are(span, block_size, n),
            Self::levels_are(span, block_size, m),
        ensures
            n == m,
    {
        if n < m {
            lemma_pow2_monotone(n, (m - 1) as nat);
            assert(block_size * pow2(n) <= block_size * pow2((m - 1) as nat)) by (nonlinear_arith)
                requires
                    block_size > 0,
                    pow2(n) <= pow2((m - 1) as nat),
            ;
        } else if m < n {
            lemma_pow2_monotone(m, (n - 1) as nat);
            assert(block_size * pow2(m) <= block_size * pow2((n - 1) as nat)) by (nonlinear_arith)
                requires
                    block_size > 0,
                    pow2(m) <= pow2((n - 1) as nat),
            ;
        }
    }

    /// A fresh arena is tidy, and all of its bytes are free.
    pub proof fn lemma_fresh_tidy(self)
        requires
            self.wf(),
            self.is_fresh(),
        ensures
            self.tidy(),
            self.span_free(self.start, self.max_size()),
    {
        lemma_pow2_pos(0);
        lemma2_to64();
        assert forall|x: int, l: int| #[trigger] self.covers(l, x) implies l == 0 by {
            if l != 0 {
                assert(self.free[l] =~= Seq::<u32>::empty());
            }
        }
        assert forall|l: int| 0 <= l <= self.levels implies #[trigger] self.free[l].no_duplicates() by {
            if l == 0 {
                assert(self.free[0] =~= seq![0u32]);
            } else {
                assert(self.free[l] =~= Seq::<u32>::empty());
            }
        }
        assert forall|x: int| self.start <= x < self.start + self.max_size() implies #[trigger] self.byte_free(
            x,
        ) by {
            self.lemma_block_of_within(0, x);
            assert(self.free[0] =~= seq![0u32]);
            assert(self.free[0][0] == 0u32);
            assert(self.covers(0, x));
        }
    }

    /// Every request that the arena can hold has its level.
    pub proof fn lemma_level_exists(self, size: int)
        requires
            self.shape_ok(),
            size <= self.max_size(),
        ensures
            self.is_level_for(size, self.request_level(size)),
    {
        self.lemma_level_from(size, 0);
    }

    /// From a level whose blocks hold the request, a level for the request is
    /// found on the way down.
    proof fn lemma_level_from(self, size: int, level: int)
        requires
            self.shape_ok(),
            0 <= level <= self.levels,
            size <= self.block_bytes(level),
        ensures
            exists|l: int| self.is_level_for(size, l),
        decreases self.levels - level,
    {
        if level < self.levels && size <= self.block_bytes(level + 1) {
            self.lemma_level_from(size, level + 1);
        } else {
            assert(self.is_level_for(size, level));
        }
    }

    /// What a served request is given: a block of the level of the request,
    /// which holds the bytes asked for, lies within the root block, and so
    /// within an arena that is exact, and starts at a multiple of its own
    /// size from the start of the arena. Whether a
    /// request is served depends only on whether its level or one above it
    /// holds a free block. In a tidy arena every byte of the block was free,
    /// none is free afterwards, and no other byte changes.
    pub proof fn lemma_alloc_result(self, size: int, align: int)
        requires
            self.wf(),
        ensures
            self.alloc_result(size, align) is Some <==> self.can_serve(size, align),
            self.alloc_result(size, align) matches Some((addr, rest)) ==> ({
                let bytes = self.request_bytes(size, align);
                let after = self.with_free(rest);
                &&& after.wf()
                &&& size <= bytes
                &&& align <= bytes
                &&& self.start <= addr
                &&& addr + bytes <= self.start + self.max_size()
                &&& self.exact() ==> addr + bytes <= self.end
                &&& (addr - self.start) % bytes == 0
                &&& self.tidy() ==> after.tidy() && self.span_free(addr, bytes) && after.lost(
                    self,
                    addr,
                    bytes,
                )
            }),
    {
        let req = Self::request_size(size, align);
        if req <= self.max_size() {
            self.lemma_level_exists(req);
            let level = self.request_level(req);
            self.lemma_take_block_some(level);
            self.lemma_take_block_wf(level);
            if take_block(self.free, level) is Some {
                let (b, rest) = take_block(self.free, level)->0;
                let after = self.with_free(rest);
                let addr = self.block_addr(level, b as int);
                let bytes = self.block_bytes(level);
                self.lemma_block_span(level, b as int, addr);
                if self.tidy() {
                    self.lemma_take_block_tidy(level);
                    assert forall|x: int| addr <= x < addr + bytes implies #[trigger] self.byte_free(
                        x,
                    ) by {
                        self.lemma_block_span(level, b as int, x);
                    }
                    assert forall|x: int|
                        #![trigger after.byte_free(x)]
                        #![trigger self.byte_free(x)]
                        after.byte_free(x) <==> self.byte_free(x) && !(addr <= x < addr + bytes) by {
                        self.lemma_block_span(level, b as int, x);
                    }
                }
            }
        }
    }

    /// What giving back a block does in a tidy arena, where no byte of the
    /// block is free: the arena stays tidy, the bytes of the block become
    /// free, and no other byte changes.
    pub proof fn lemma_dealloc_result(self, addr: int, size: int, align: int)
        requires
            self.wf(),
            self.tidy(),
            self.in_root(addr),
            Self::request_size(size, align) <= self.max_size(),
            self.span_used(
                self.block_start(self.request_level(Self::request_size(size, align)), addr),
                self.request_bytes(size, align),
            ),
        ensures
            ({
                let level = self.request_level(Self::request_size(size, align));
                let after = self.with_free(self.dealloc_result(addr, size, align));
                &&& after.wf()
                &&& after.tidy()
                &&& after.gained(self, self.block_start(level, addr), self.request_bytes(size, align))
            }),
    {
        let req = Self::request_size(size, align);
        self.lemma_level_exists(req);
        let level = self.request_level(req);
        self.lemma_block_of_within(level, addr);
        lemma2_to64();
        lemma_pow2_monotone(level as nat, 32);
        let block = self.block_of(level, addr) as u32;
        self.lemma_release_tidy(level, block);
        self.lemma_release_wf(level, block);
    }

    /// Giving back a block that exists leaves the arena in order, whatever
    /// the block.
    pub proof fn lemma_release_wf(self, level: int, block: u32)
        requires
            self.wf(),
            0 <= level <= self.levels,
            block < pow2(level as nat),
        ensures
            self.with_free(release(self.free, level, block)).wf(),
    {
        self.lemma_push_pending(level, block);
        let pushed = self.with_free(self.free.update(level, self.free[level].push(block)));
        pushed.lemma_merge_wf(level, block);
    }

    /// Merging leads from a pending state to an arena in order.
    pub proof fn lemma_merge_wf(self, level: int, block: u32)
        requires
            self.pending_ok(level, block),
        ensures
            self.with_free(merge(self.free, level, block)).wf(),
        decreases level,
    {
        if 0 < level && self.free[level].contains(buddy(block)) {
            let list = self.free[level];
            let found = choose|k: int| 0 <= k < list.len() && list[k] == buddy(block);
            lemma_first_exists(list, buddy(block), found);
            let i = choose|i: int| first_at(list, buddy(block), i);
            self.lemma_merge_step(level, block, i);
            let up = self.free.update(level, list.drop_last().remove(i)).update(
                level - 1,
                self.free[level - 1].push((block / 2) as u32),
            );
            self.with_free(up).lemma_merge_wf(level - 1, (block / 2) as u32);
        } else {
            if self.free[level].contains(buddy(block)) {
                let list = self.free[level];
                let found = choose|k: int| 0 <= k < list.len() && list[k] == buddy(block);
                lemma_first_exists(list, buddy(block), found);
                let i = choose|i: int| first_at(list, buddy(block), i);
                self.lemma_buddy_found(level, block, i);
            }
            self.lemma_merge_done(level, block);
        }
    }

    /// A block that is given back as it was handed out leaves the free bytes
    /// of a tidy arena as they were before it was handed out.
    pub proof fn lemma_alloc_then_dealloc(self, size: int, align: int)
        requires
            self.wf(),
            self.tidy(),
            self.alloc_result(size, align) is Some,
        ensures
            ({
                let (addr, rest) = self.alloc_result(size, align)->0;
                let taken = self.with_free(rest);
                let back = taken.with_free(taken.dealloc_result(addr, size, align));
                &&& back.wf()
                &&& back.tidy()
                &&& back.same_free_bytes(self)
            }),
    {
        let (addr, rest) = self.alloc_result(size, align)->0;
        let taken = self.with_free(rest);
        let back = taken.with_free(taken.dealloc_result(addr, size, align));
        let req = Self::request_size(size, align);
        self.lemma_alloc_result(size, align);
        self.lemma_level_exists(req);
        taken.lemma_level_exists(req);
        let level = self.request_level(req);
        assert(self.is_level_for(req, taken.request_level(req)));
        self.lemma_level_unique(req, taken.request_level(req));
        let bytes = self.block_bytes(level);
        self.lemma_take_block_wf(level);
        let (b, _) = take_block(self.free, level)->0;
        self.lemma_block_span(level, b as int, addr);
        assert(taken.block_start(level, addr) == addr);
        assert(taken.span_used(addr, bytes)) by {
            assert forall|x: int| addr <= x < addr + bytes implies !#[trigger] taken.byte_free(x) by {
                assert(taken.byte_free(x) <==> self.byte_free(x) && !(addr <= x < addr + bytes));
            }
        }
        taken.lemma_dealloc_result(addr, size, align);
        assert forall|x: int| back.byte_free(x) == self.byte_free(x) by {
            assert(back.byte_free(x) <==> taken.byte_free(x) || (taken.in_root(x) && addr <= x < addr
                + bytes));
            assert(taken.byte_free(x) <==> self.byte_free(x) && !(addr <= x < addr + bytes));
            if addr <= x < addr + bytes {
                assert(self.byte_free(x));
            }
        }
    }

    /// Giving back the block that was just taken leaves the free lists as
    /// they were before it was taken, list by list and place by place.
    pub proof fn lemma_take_then_release(self, level: int)
        requires
            self.wf(),
            0 <= level <= self.levels,
            take_block(self.free, level) is Some,
        ensures
            ({
                let (b, rest) = take_block(self.free, level)->0;
                release(rest, level, b) == self.free
            }),
        decreases level,
    {
        let free = self.free;
        let (b, rest) = take_block(free, level)->0;
        if free[level].len() > 0 {
            let put = rest.update(level, rest[level].push(b));
            assert(rest[level].push(b) =~= free[level]);
            assert(put =~= free);
            assert(free[level].contains(b)) by {
                assert(free[level][free[level].len() - 1] == b);
            }
            assert(!free[level].contains(buddy(b)));
        } else {
            self.lemma_take_then_release(level - 1);
            self.lemma_take_block_wf(level - 1);
            let (p, rest1) = take_block(free, level - 1)->0;
            lemma_pow2_monotone((level - 1) as nat, 31);
            lemma2_to64();
            assert(rest1[level] == free[level]);
            let low = (2 * p) as u32;
            let high = (2 * p + 1) as u32;
            assert(rest[level] =~= seq![high]);
            let put = rest.update(level, rest[level].push(low));
            assert(put[level] =~= seq![high, low]);
            assert(buddy(low) == high);
            assert(put[level].contains(high)) by {
                assert(put[level][0] == high);
            }
            let i = choose|i: int| first_at(put[level], buddy(low), i);
            assert(first_at(put[level], high, 0));
            assert(i == 0) by {
                if i != 0 {
                    assert(put[level][0] != high);
                }
            }
            let here = put[level].drop_last().remove(i);
            assert(here =~= Seq::<u32>::empty());
            let up = put.update(level, here).update(level - 1, put[level - 1].push(low / 2));
            let put1 = rest1.update(level - 1, rest1[level - 1].push(p));
            assert(up =~= put1) by {
                assert(rest1[level] =~= Seq::<u32>::empty());
                assert(put[level - 1] == rest1[level - 1]);
            }
            assert(merge(put, level, low) == merge(up, level - 1, low / 2));
        }
    }

    /// A block that is given back as it was handed out leaves the free lists
    /// as they were before it was handed out, list by list and place by
    /// place.
    pub proof fn lemma_alloc_then_dealloc_lists(self, size: int, align: int)
        requires
            self.wf(),
            self.alloc_result(size, align) is Some,
        ensures
            ({
                let (addr, rest) = self.alloc_result(size, align)->0;
                self.with_free(rest).dealloc_result(addr, size, align) == self.free
            }),
    {
        let (addr, rest) = self.alloc_result(size, align)->0;
        let taken = self.with_free(rest);
        let req = Self::request_size(size, align);
        self.lemma_alloc_result(size, align);
        self.lemma_level_exists(req);
        taken.lemma_level_exists(req);
        let level = self.request_level(req);
        assert(self.is_level_for(req, taken.request_level(req)));
        self.lemma_level_unique(req, taken.request_level(req));
        self.lemma_take_block_wf(level);
        let (b, _) = take_block(self.free, level)->0;
        self.lemma_block_span(level, b as int, addr);
        self.lemma_take_then_release(level);
    }

    /// Two blocks handed out one after the other share no byte.
    pub proof fn lemma_allocations_disjoint(self, size1: int, align1: int, size2: int, align2: int)
        requires
            self.wf(),
            self.tidy(),
            self.alloc_result(size1, align1) is Some,
            self.after_alloc(size1, align1).alloc_result(size2, align2) is Some,
        ensures
            ({
                let (addr1, _) = self.alloc_result(size1, align1)->0;
                let (addr2, _) = self.after_alloc(size1, align1).alloc_result(size2, align2)->0;
                let bytes1 = self.request_bytes(size1, align1);
                let bytes2 = self.request_bytes(size2, align2);
                addr1 + bytes1 <= addr2 || addr2 + bytes2 <= addr1
            }),
    {
        let (addr1, rest) = self.alloc_result(size1, align1)->0;
        let mid = self.with_free(rest);
        let (addr2, _) = mid.alloc_result(size2, align2)->0;
        let bytes1 = self.request_bytes(size1, align1);
        let bytes2 = self.request_bytes(size2, align2);
        self.lemma_alloc_result(size1, align1);
        mid.lemma_alloc_result(size2, align2);
        let req1 = Self::request_size(size1, align1);
        let req2 = Self::request_size(size2, align2);
        self.lemma_level_exists(req1);
        self.lemma_level_exists(req2);
        mid.lemma_level_exists(req2);
        assert(self.is_level_for(req2, mid.request_level(req2)));
        self.lemma_level_unique(req2, mid.request_level(req2));
        assert(mid.request_bytes(size2, align2) == bytes2);
        lemma_pow2_pos(self.request_level(req1) as nat);
        lemma_pow2_pos(self.request_level(req2) as nat);
        self.lemma_block_within(self.request_level(req1), 0);
        self.lemma_block_within(self.request_level(req2), 0);
        if !(addr1 + bytes1 <= addr2 || addr2 + bytes2 <= addr1) {
            let x = if addr1 <= addr2 { addr2 } else { addr1 };
            assert(mid.byte_free(x));
            assert(self.byte_free(x));
            assert(!mid.byte_free(x));
        }
    }

    /// A request is served exactly where its level or one above it holds a
    /// free block.
    pub proof fn lemma_take_block_some(self, level: int)
        requires
            self.shape_ok(),
            0 <= level <= self.levels,
        ensures
            take_block(self.free, level) is Some <==> exists|l: int|
                0 <= l <= level && (#[trigger] self.free[l]).len() > 0,
        decreases level,
    {
        if self.free[level].len() > 0 {
        } else if level > 0 {
            self.lemma_take_block_some(level - 1);
            if take_block(self.free, level) is Some {
                let l = choose|l: int| 0 <= l <= level - 1 && (#[trigger] self.free[l]).len() > 0;
                assert(self.free[l].len() > 0);
            }
            if exists|l: int| 0 <= l <= level && (#[trigger] self.free[l]).len() > 0 {
                let l = choose|l: int| 0 <= l <= level && (#[trigger] self.free[l]).len() > 0;
                assert(l <= level - 1);
                assert(self.free[l].len() > 0);
            }
        } else {
            if exists|l: int| 0 <= l <= level && (#[trigger] self.free[l]).len() > 0 {
                let l = choose|l: int| 0 <= l <= level && (#[trigger] self.free[l]).len() > 0;
            }
        }
    }
}

/// Where an element stands in a sequence, there is a first place at which it
/// stands.
pub proof fn lemma_first_exists(s: Seq<u32>, b: u32, k: int)
    requires
        0 <= k < s.len(),
        s[k] == b,
    ensures
        exists|i: int| first_at(s, b, i),
    decreases k,
{
    if forall|j: int| 0 <= j < k ==> s[j] != b {
        assert(first_at(s, b, k));
    } else {
        let j = choose|j: int| 0 <= j < k && s[j] == b;
        lemma_first_exists(s, b, j);
    }
}

impl BuddyAllocator {
    /// Lays an arena over `[start_addr, end_addr)` with leaf blocks of
    /// `block_size` bytes. The whole arena is free.
    pub fn new(start_addr: usize, end_addr: usize, block_size: u16) -> (a: BuddyAllocator)
        requires
            Arena::region_ok(start_addr as int, end_addr as int, block_size as int),
        ensures
            a@.wf(),
            a@ == Arena::fresh(start_addr as int, end_addr as int, block_size as int),
    {
        let span: usize = end_addr - start_addr;
        let ghost limit: nat = choose|n: nat|
            n <= 32 && end_addr - start_addr <= block_size * #[trigger] pow2(n) && start_addr
                + block_size * pow2(n) <= usize::MAX;
        proof {
            reveal(is_pow2);
            lemma2_to64();
        }
        let mut num_levels: u8 = 0;
        let mut bytes: u64 = block_size as u64;
        while bytes < span as u64
            invariant
                span == end_addr - start_addr,
                limit <= 32,
                span <= block_size * pow2(limit),
                bytes == block_size * pow2(num_levels as nat),
                num_levels <= limit,
                block_size > 0,
                num_levels > 0 ==> block_size * pow2((num_levels - 1) as nat) < span,
            decreases limit - num_levels,
        {
            proof {
                lemma2_to64();
                lemma_pow2_unfold((num_levels + 1) as nat);
                assert(block_size * pow2((num_levels + 1) as nat) == 2 * (block_size * pow2(
                    num_levels as nat,
                ))) by (nonlinear_arith)
                    requires
                        pow2((num_levels + 1) as nat) == 2 * pow2(num_levels as nat),
                ;
                lemma_pow2_monotone(limit, 32);
                assert(block_size * pow2(limit) <= 0xffff * 0x1_0000_0000) by (nonlinear_arith)
                    requires
                        0 <= block_size <= 0xffff,
                        pow2(limit) <= 0x1_0000_0000,
                ;
            }
            bytes = bytes * 2;
            num_levels = num_levels + 1;
        }
        proof {
            lemma_pow2_monotone(num_levels as nat, limit);
            assert(block_size * pow2(num_levels as nat) <= block_size * pow2(limit))
                by (nonlinear_arith)
                requires
                    pow2(num_levels as nat) <= pow2(limit),
                    block_size >= 0,
            ;
        }
        let mut free_lists: Vec<Vec<u32>> = Vec::with_capacity(num_levels as usize + 1);
        let mut root: Vec<u32> = Vec::with_capacity(4);
        root.push(0);
        free_lists.push(root);
        let mut level: u8 = 0;
        while level < num_levels
            invariant
                level <= num_levels,
                free_lists.len() == level + 1,
                free_lists@[0]@ == seq![0u32],
                forall|l: int| 0 < l <= level ==> (#[trigger] free_lists@[l])@ == Seq::<u32>::empty(),
            decreases num_levels - level,
        {
            free_lists.push(Vec::with_capacity(4));
            level = level + 1;
        }
        let a = BuddyAllocator { start_addr, end_addr, num_levels, block_size, free_lists };
        proof {
            assert(Arena::levels_are(span as int, block_size as int, num_levels as nat));
            Arena::lemma_levels_unique(
                span as int,
                block_size as int,
                num_levels as nat,
                Arena::levels_of(span as int, block_size as int),
            );
            assert(a@.free =~= fresh_lists(num_levels as int));
            assert(a@.indices_ok()) by {
                lemma_pow2_pos(0);
                assert forall|l: int, i: int|
                    0 <= l <= a@.levels && 0 <= i < a@.free[l].len() implies (
                #[trigger] a@.free[l][i]) < pow2(l as nat) by {
                    lemma_pow2_pos(l as nat);
                }
            }
            assert(a@.no_free_buddies()) by {
                assert forall|l: int, b: u32|
                    0 <= l <= a@.levels && #[trigger] a@.free[l].contains(b) implies !a@.free[l].contains(
                    buddy(b),
                ) by {
                    if l == 0 {
                        assert(a@.free[0] =~= seq![0u32]);
                        assert(b == 0);
                        if a@.free[0].contains(buddy(b)) {
                            let j = choose|j: int| 0 <= j < a@.free[0].len() && a@.free[0][j] == buddy(b);
                            assert(false);
                        }
                    } else {
                        assert(a@.free[l] =~= Seq::<u32>::empty());
                    }
                }
            }
        }
        a
    }

    /// Whether an arena can be laid over `[start_addr, end_addr)` with leaves
    /// of `block_size` bytes.
    pub fn region_ok(start_addr: usize, end_addr: usize, block_size: u16) -> (r: bool)
        ensures
            r == Arena::region_ok(start_addr as int, end_addr as int, block_size as int),
    {
        if start_addr >= end_addr || !is_power_of_two(block_size) {
            return false;
        }
        proof {
            reveal(is_pow2);
            lemma2_to64();
        }
        let span: u64 = (end_addr - start_addr) as u64;
        let mut levels: u8 = 0;
        let mut bytes: u64 = block_size as u64;
        while bytes < span && levels < 32
            invariant
                block_size > 0,
                levels <= 32,
                bytes == block_size * pow2(levels as nat),
                levels > 0 ==> block_size * pow2((levels - 1) as nat) < span,
            decreases 32 - levels,
        {
            proof {
                lemma2_to64();
                lemma_pow2_unfold((levels + 1) as nat);
                lemma_pow2_monotone(levels as nat, 31);
                assert(block_size * pow2((levels + 1) as nat) == 2 * (block_size * pow2(
                    levels as nat,
                ))) by (nonlinear_arith)
                    requires
                        pow2((levels + 1) as nat) == 2 * pow2(levels as nat),
                ;
                assert(block_size * pow2(levels as nat) <= 0xffff * 0x8000_0000) by (nonlinear_arith)
                    requires
                        0 <= block_size <= 0xffff,
                        pow2(levels as nat) <= 0x8000_0000,
                ;
            }
            bytes = bytes * 2;
            levels = levels + 1;
        }
        let fits: bool = bytes >= span && bytes <= (usize::MAX - start_addr) as u64;
        proof {
            let ghost n = levels as nat;
            if fits {
                assert(n <= 32 && end_addr - start_addr <= block_size * pow2(n) && start_addr
                    + block_size * pow2(n) <= usize::MAX);
            } else {
                assert forall|m: nat|
                    m <= 32 && end_addr - start_addr <= block_size * #[trigger] pow2(m) implies !(
                start_addr + block_size * pow2(m) <= usize::MAX) by {
                    if m < n {
                        lemma_pow2_monotone(m, (n - 1) as nat);
                        assert(block_size * pow2(m) <= block_size * pow2((n - 1) as nat))
                            by (nonlinear_arith)
                            requires
                                block_size > 0,
                                pow2(m) <= pow2((n - 1) as nat),
                        ;
                    } else {
                        lemma_pow2_monotone(n, m);
                        assert(block_size * pow2(n) <= block_size * pow2(m)) by (nonlinear_arith)
                            requires
                                block_size > 0,
                                pow2(n) <= pow2(m),
                        ;
                    }
                }
            }
        }
        fits
    }

    /// A copy of this arena as it stands.
    pub fn snapshot(&self) -> (a: BuddyAllocator)
        ensures
            a@ == self@,
    {
        let mut free_lists: Vec<Vec<u32>> = Vec::with_capacity(self.free_lists.len());
        let mut level: usize = 0;
        while level < self.free_lists.len()
            invariant
                level <= self.free_lists.len(),
                free_lists@.len() == level,
                forall|l: int| 0 <= l < level ==> (#[trigger] free_lists@[l])@ == self.free_lists@[l]@,
            decreases self.free_lists.len() - level,
        {
            let list = &self.free_lists[level];
            let mut blocks: Vec<u32> = Vec::with_capacity(list.len());
            let mut i: usize = 0;
            while i < list.len()
                invariant
                    i <= list.len(),
                    blocks@ == list@.subrange(0, i as int),
                decreases list.len() - i,
            {
                blocks.push(list[i]);
                assert(blocks@ =~= list@.subrange(0, i + 1));
                i = i + 1;
            }
            assert(blocks@ =~= list@);
            free_lists.push(blocks);
            level = level + 1;
        }
        let a = BuddyAllocator {
            start_addr: self.start_addr,
            end_addr: self.end_addr,
            num_levels: self.num_levels,
            block_size: self.block_size,
            free_lists,
        };
        assert(a@.free =~= self@.free);
        a
    }

    /// Whether `addr` lies in this arena.
    pub fn contains(&self, addr: usize) -> (r: bool)
        ensures
            r == self@.contains(addr as int),
    {
        addr >= self.start_addr && addr < self.end_addr
    }

    /// The first address of this arena.
    pub fn start_addr(&self) -> (r: usize)
        ensures
            r == self@.start,
    {
        self.start_addr
    }

    /// One past the last address of this arena.
    pub fn end_addr(&self) -> (r: usize)
        ensures
            r == self@.end,
    {
        self.end_addr
    }

    /// The largest request that this arena can serve: the bytes of its root
    /// block.
    pub fn max_size(&self) -> (r: usize)
        requires
            self@.wf(),
        ensures
            r == self@.max_size(),
    {
        proof {
            lemma_shift_in_range(self.block_size as int, self.num_levels as nat);
            lemma_usize_shl_is_mul(self.block_size as usize, self.num_levels as usize);
        }
        (self.block_size as usize) << (self.num_levels as usize)
    }

    /// The figures of the arena: where it lies, its levels, the size of its
    /// leaf blocks, the largest request that it can serve, and how many
    /// blocks of every level are free.
    pub fn report(&self) -> (r: ArenaReport)
        requires
            self@.wf(),
        ensures
            r.shows(self@),
    {
        let mut free: Vec<usize> = Vec::new();
        let mut l: usize = 0;
        while l < self.free_lists.len()
            invariant
                self@.wf(),
                l <= self.free_lists.len(),
                self.free_lists.len() == self@.levels + 1,
                free@.len() == l,
                forall|k: int| 0 <= k < l ==> free@[k] == (#[trigger] self@.free[k]).len(),
            decreases self.free_lists.len() - l,
        {
            assert(self@.free[l as int] == self.free_lists@[l as int]@);
            free.push(self.free_lists[l].len());
            l = l + 1;
        }
        ArenaReport {
            start: self.start_addr,
            end: self.end_addr,
            levels: self.num_levels as usize + 1,
            block_size: self.block_size,
            max_alloc: self.max_size(),
            free,
        }
    }

    /// The level that serves a request of `size` bytes: the deepest whose
    /// blocks hold that many. `None` for a request larger than the arena.
    pub fn req_size_to_level(&self, size: usize) -> (r: Option<usize>)
        requires
            self@.wf(),
        ensures
            r is None <==> size > self@.max_size(),
            r matches Some(l) ==> self@.is_level_for(size as int, l as int) && l
                == self@.request_level(size as int),
    {
        let max_size: usize = self.max_size();
        if size > max_size {
            None
        } else {
            proof {
                lemma_shift_in_range(self.block_size as int, self.num_levels as nat);
                lemma_pow2_pos(0);
            }
            let mut next_level: usize = 1;
            while next_level <= self.num_levels as usize && (max_size >> next_level) >= size
                invariant
                    self@.wf(),
                    max_size == self@.max_size(),
                    self.num_levels < usize::BITS,
                    1 <= next_level <= self.num_levels + 1,
                    size <= self@.block_bytes(next_level - 1),
                decreases self.num_levels + 1 - next_level,
            {
                proof {
                    lemma_usize_shr_is_div(max_size, next_level);
                    lemma_block_bytes(
                        self.block_size as int,
                        self.num_levels as nat,
                        next_level as nat,
                    );
                }
                next_level = next_level + 1;
            }
            let level: usize = next_level - 1;
            proof {
                if level < self.num_levels {
                    lemma_usize_shr_is_div(max_size, next_level);
                    lemma_block_bytes(
                        self.block_size as int,
                        self.num_levels as nat,
                        next_level as nat,
                    );
                }
                self@.lemma_level_unique(size as int, level as int);
            }
            Some(level)
        }
    }

    /// The bytes of one block of `level`.
    fn level_block_size(&self, level: usize) -> (r: usize)
        requires
            self@.wf(),
            level <= self@.levels,
        ensures
            r == self@.block_bytes(level as int),
            r > 0,
    {
        let max_size: usize = self.max_size();
        proof {
            lemma_shift_in_range(self.block_size as int, self.num_levels as nat);
            lemma_usize_shr_is_div(max_size, level);
            lemma_block_bytes(self.block_size as int, self.num_levels as nat, level as nat);
            lemma_pow2_pos((self.num_levels - level) as nat);
            assert(self.block_size * pow2((self.num_levels - level) as nat) > 0) by (nonlinear_arith)
                requires
                    self.block_size > 0,
                    pow2((self.num_levels - level) as nat) > 0,
            ;
        }
        max_size >> level
    }

    /// Serves a request for `size` bytes aligned to `alignment` from the level
    /// whose blocks hold the larger of the two, and returns the address of the
    /// block, or `None` where the arena has no block for it.
    pub fn allocate(&mut self, size: usize, alignment: usize) -> (r: Option<usize>)
        requires
            old(self)@.wf(),
        ensures
            final(self)@.wf(),
            match old(self)@.alloc_result(size as int, alignment as int) {
                Some((addr, free)) => r == Some(addr as usize) && final(self)@ == old(self)@.with_free(
                    free,
                ),
                None => r is None && final(self)@ == old(self)@,
            },
            r is Some <==> old(self)@.can_serve(size as int, alignment as int),
            r matches Some(addr) ==> ({
                let bytes = old(self)@.request_bytes(size as int, alignment as int);
                &&& size <= bytes
                &&& alignment <= bytes
                &&& old(self)@.start <= addr
                &&& addr + bytes <= old(self)@.start + old(self)@.max_size()
                &&& old(self)@.exact() ==> addr + bytes <= old(self)@.end
                &&& (addr - old(self)@.start) % bytes == 0
                &&& old(self)@.tidy() ==> old(self)@.span_free(addr as int, bytes)
                &&& old(self)@.tidy() ==> final(self)@.lost(old(self)@, addr as int, bytes)
            }),
            old(self)@.tidy() ==> final(self)@.tidy(),
    {
        proof {
            self@.lemma_alloc_result(size as int, alignment as int);
        }
        let size: usize = if size >= alignment { size } else { alignment };
        match self.req_size_to_level(size) {
            None => None,
            Some(req_level) => {
                let bytes: usize = self.level_block_size(req_level);
                match self.get_free_block(req_level) {
                    None => None,
                    Some(block) => {
                        proof {
                            self@.lemma_block_within(req_level as int, block as int);
                        }
                        let offset: usize = block as usize * bytes;
                        Some(self.start_addr + offset)
                    },
                }
            },
        }
    }

    /// Gives back the block at `addr` that served a request for `size` bytes
    /// aligned to `alignment`, and merges it with its buddy as far up as the
    /// buddies are free.
    pub fn dealloc(&mut self, addr: usize, size: usize, alignment: usize)
        requires
            old(self)@.wf(),
            old(self)@.start <= addr < old(self)@.start + old(self)@.max_size(),
        ensures
            final(self)@.wf(),
            final(self)@ == old(self)@.with_free(
                old(self)@.dealloc_result(addr as int, size as int, alignment as int),
            ),
            ({
                let req = Arena::request_size(size as int, alignment as int);
                let first = old(self)@.block_start(old(self)@.request_level(req), addr as int);
                let bytes = old(self)@.request_bytes(size as int, alignment as int);
                req <= old(self)@.max_size() && old(self)@.tidy() && old(self)@.span_used(
                    first,
                    bytes,
                ) ==> final(self)@.tidy() && final(self)@.gained(old(self)@, first, bytes)
            }),
    {
        proof {
            let req = Arena::request_size(size as int, alignment as int);
            let first = self@.block_start(self@.request_level(req), addr as int);
            let bytes = self@.request_bytes(size as int, alignment as int);
            if req <= self@.max_size() && self@.tidy() && self@.span_used(first, bytes) {
                self@.lemma_dealloc_result(addr as int, size as int, alignment as int);
            }
        }
        let size: usize = if size >= alignment { size } else { alignment };
        if let Some(req_level) = self.req_size_to_level(size) {
            let level_block_size: usize = self.level_block_size(req_level);
            let block: usize = (addr - self.start_addr) / level_block_size;
            proof {
                self@.lemma_block_of_within(req_level as int, addr as int);
                lemma2_to64();
                lemma_pow2_monotone(req_level as nat, 32);
            }
            let block_num: u32 = block as u32;
            let ghost before = self@;
            self.free_lists[req_level].push(block_num);
            proof {
                assert(self@.free =~= before.free.update(
                    req_level as int,
                    before.free[req_level as int].push(block_num),
                ));
                before.lemma_push_pending(req_level as int, block_num);
            }
            self.merge_buddies(req_level, block_num);
        } else {
            assert(self@ == old(self)@.with_free(old(self)@.free));
        }
    }

    /// Merges `block_num`, the last free block of `level`, with its buddy as
    /// far up as the buddies are free.
    pub fn merge_buddies(&mut self, level: usize, block_num: u32)
        requires
            old(self)@.pending_ok(level as int, block_num),
        ensures
            final(self)@.wf(),
            final(self)@ == old(self)@.with_free(merge(old(self)@.free, level as int, block_num)),
        decreases level,
    {
        let buddy_block: u32 = block_num ^ 1;
        assert(buddy_block == buddy(block_num)) by {
            lemma_xor_one(block_num);
        }
        let ghost before = self@;
        match position(&self.free_lists[level], buddy_block) {
            Some(buddy_idx) => {
                proof {
                    before.lemma_buddy_found(level as int, block_num, buddy_idx as int);
                }
                self.free_lists[level].pop();
                self.free_lists[level].remove(buddy_idx);
                self.free_lists[level - 1].push(block_num / 2);
                proof {
                    let here = before.free[level as int].drop_last().remove(buddy_idx as int);
                    let up = before.free.update(level as int, here).update(
                        level - 1,
                        before.free[level - 1].push(block_num / 2),
                    );
                    assert(self@.free =~= up);
                    before.lemma_merge_step(level as int, block_num, buddy_idx as int);
                }
                self.merge_buddies(level - 1, block_num / 2)
            },
            None => {
                proof {
                    before.lemma_merge_done(level as int, block_num);
                    assert(self@ == before.with_free(before.free));
                }
            },
        }
    }

    /// Takes a free block of `level`, splitting one of a level above where
    /// this level has none. Returns its number on `level`.
    pub fn get_free_block(&mut self, level: usize) -> (r: Option<u32>)
        requires
            old(self)@.wf(),
            level <= old(self)@.levels,
        ensures
            final(self)@.wf(),
            match take_block(old(self)@.free, level as int) {
                Some((b, rest)) => r == Some(b) && final(self)@ == old(self)@.with_free(rest),
                None => r is None && final(self)@ == old(self)@,
            },
            r matches Some(b) ==> b < pow2(level as nat),
        decreases level, 1nat,
    {
        let ghost before = self@;
        match self.free_lists[level].pop() {
            Some(block) => {
                proof {
                    assert(self@.free =~= before.free.update(
                        level as int,
                        before.free[level as int].drop_last(),
                    ));
                    before.lemma_take_block_wf(level as int);
                }
                Some(block)
            },
            None => {
                assert(self@.free =~= before.free);
                self.split_level(level)
            },
        }
    }

    /// Takes a block from the level above `level` and splits it: the upper
    /// half becomes free on `level`, the lower half is returned.
    pub fn split_level(&mut self, level: usize) -> (r: Option<u32>)
        requires
            old(self)@.wf(),
            level <= old(self)@.levels,
            old(self)@.free[level as int].len() == 0,
        ensures
            final(self)@.wf(),
            match take_block(old(self)@.free, level as int) {
                Some((b, rest)) => r == Some(b) && final(self)@ == old(self)@.with_free(rest),
                None => r is None && final(self)@ == old(self)@,
            },
            r matches Some(b) ==> b < pow2(level as nat),
        decreases level, 0nat,
    {
        if level == 0 {
            None
        } else {
            let ghost before = self@;
            match self.get_free_block(level - 1) {
                None => None,
                Some(block) => {
                    proof {
                        before.lemma_take_block_wf(level - 1);
                        before.lemma_take_block_wf(level as int);
                        lemma_pow2_unfold(level as nat);
                        lemma2_to64();
                        lemma_pow2_monotone(level as nat, 32);
                    }
                    let ghost mid = self@;
                    self.free_lists[level].push(block * 2 + 1);
                    proof {
                        assert(self@.free =~= mid.free.update(
                            level as int,
                            mid.free[level as int].push((2 * block + 1) as u32),
                        ));
                    }
                    Some(block * 2)
                },
            }
        }
    }
}

/// Whether the arenas at the places `i` and `j` share no byte of their root
/// blocks.
pub open spec fn apart(arenas: Seq<Arena>, i: int, j: int) -> bool {
    arenas[i].start + arenas[i].max_size() <= arenas[j].start || arenas[j].start
        + arenas[j].max_size() <= arenas[i].start
}

/// Whether every arena is in order.
pub open spec fn arenas_ok(arenas: Seq<Arena>) -> bool {
    forall|i: int| 0 <= i < arenas.len() ==> (#[trigger] arenas[i]).wf()
}

/// Whether no arena begins at address zero.
pub open spec fn arenas_nonzero(arenas: Seq<Arena>) -> bool {
    forall|i: int| 0 <= i < arenas.len() ==> (#[trigger] arenas[i]).start > 0
}

/// Whether every arena is regular.
pub open spec fn arenas_regular(arenas: Seq<Arena>) -> bool {
    forall|i: int| 0 <= i < arenas.len() ==> (#[trigger] arenas[i]).regular()
}

/// Whether the range `[start, end)` shares no byte with the root block of any
/// arena.
pub open spec fn clear_of_arenas(arenas: Seq<Arena>, start: int, end: int) -> bool {
    forall|i: int|
        0 <= i < arenas.len() ==> end <= (#[trigger] arenas[i]).start || arenas[i].start
            + arenas[i].max_size() <= start
}

/// Whether every arena is in order and no two of them share a byte of their
/// root blocks.
pub open spec fn arenas_wf(arenas: Seq<Arena>) -> bool {
    &&& forall|i: int| 0 <= i < arenas.len() ==> (#[trigger] arenas[i]).wf()
    &&& forall|i: int, j: int| 0 <= i < j < arenas.len() ==> #[trigger] apart(arenas, i, j)
}

/// Whether every arena is tidy.
pub open spec fn arenas_tidy(arenas: Seq<Arena>) -> bool {
    forall|i: int| 0 <= i < arenas.len() ==> (#[trigger] arenas[i]).tidy()
}

/// Whether the arena at place `i` is the first that can serve the request.
pub open spec fn serves_first(arenas: Seq<Arena>, size: int, align: int, i: int) -> bool {
    &&& 0 <= i < arenas.len()
    &&& arenas[i].can_serve(size, align)
    &&& forall|j: int| 0 <= j < i ==> !(#[trigger] arenas[j]).can_serve(size, align)
}

/// Whether the arena at place `i` is the first in which `addr` lies.
pub open spec fn owns_first(arenas: Seq<Arena>, addr: int, i: int) -> bool {
    &&& 0 <= i < arenas.len()
    &&& arenas[i].contains(addr)
    &&& forall|j: int| 0 <= j < i ==> !(#[trigger] arenas[j]).contains(addr)
}

/// Whether `addr` lies in one of the arenas.
pub open spec fn arenas_own(arenas: Seq<Arena>, addr: int) -> bool {
    exists|i: int| 0 <= i < arenas.len() && (#[trigger] arenas[i]).contains(addr)
}

/// Whether the byte at `addr` belongs to a free block of one of the arenas.
pub open spec fn arenas_byte_free(arenas: Seq<Arena>, addr: int) -> bool {
    exists|i: int| 0 <= i < arenas.len() && (#[trigger] arenas[i]).byte_free(addr)
}

/// What a request does to the arenas: the address handed out by the first
/// arena that can serve it and the arenas as they are left, or `None` where
/// no arena can serve it.
pub open spec fn manager_alloc(arenas: Seq<Arena>, size: int, align: int) -> Option<
    (int, Seq<Arena>),
> {
    if exists|i: int| serves_first(arenas, size, align, i) {
        let i = choose|i: int| serves_first(arenas, size, align, i);
        match arenas[i].alloc_result(size, align) {
            Some((addr, _)) => Some((addr, arenas.update(i, arenas[i].after_alloc(size, align)))),
            None => None,
        }
    } else {
        None
    }
}

/// What giving back the block at `addr` does to the arenas: the first arena in
/// which `addr` lies takes it back; where it lies in none, nothing changes.
pub open spec fn manager_dealloc(arenas: Seq<Arena>, addr: int, size: int, align: int) -> Seq<
    Arena,
> {
    if exists|i: int| owns_first(arenas, addr, i) {
        let i = choose|i: int| owns_first(arenas, addr, i);
        arenas.update(i, arenas[i].with_free(arenas[i].dealloc_result(addr, size, align)))
    } else {
        arenas
    }
}

/// The address that a request is given, for a request that is served.
pub open spec fn alloc_addr(a: Arena, size: int, align: int) -> int {
    match a.alloc_result(size, align) {
        Some((addr, _)) => addr,
        None => 0,
    }
}

/// Whether the arena at place `k` is the first that can serve the request,
/// and serves it with the block at `addr`, which lies within its root block.
pub open spec fn served_at(arenas: Seq<Arena>, size: int, align: int, k: int, addr: int) -> bool {
    &&& serves_first(arenas, size, align, k)
    &&& arenas[k].alloc_result(size, align) is Some
    &&& alloc_addr(arenas[k], size, align) == addr
    &&& arenas[k].start <= addr
    &&& addr + arenas[k].request_bytes(size, align) <= arenas[k].start + arenas[k].max_size()
}

/// Whether the block at `addr` that the arena at place `k` serves a request
/// with lies within that arena, does not begin at address zero, and is
/// routed to that arena when it is given back.
pub open spec fn routed_to(arenas: Seq<Arena>, size: int, align: int, k: int, addr: int) -> bool {
    &&& 0 < addr
    &&& addr + arenas[k].request_bytes(size, align) <= arenas[k].end
    &&& owns_first(arenas, addr, k)
}

/// The place of the first arena that can serve the request, where there is
/// one.
pub open spec fn first_server(arenas: Seq<Arena>, size: int, align: int) -> int {
    choose|k: int| serves_first(arenas, size, align, k)
}

/// A request that is served is served by the first arena that can serve it,
/// with a block within its root block; no other arena changes. Where the
/// arenas share no byte and the serving arena is regular, the block lies
/// within that arena and is routed to it when it is given back.
pub proof fn lemma_manager_serves(arenas: Seq<Arena>, size: int, align: int)
    requires
        arenas_ok(arenas),
        manager_alloc(arenas, size, align) is Some,
    ensures
        ({
            let (addr, rest) = manager_alloc(arenas, size, align)->0;
            let k = first_server(arenas, size, align);
            &&& served_at(arenas, size, align, k, addr)
            &&& rest == arenas.update(k, arenas[k].after_alloc(size, align))
            &&& arenas_wf(arenas) && arenas[k].regular() ==> routed_to(arenas, size, align, k, addr)
        }),
{
    let (addr, rest) = manager_alloc(arenas, size, align)->0;
    let k = choose|k: int| serves_first(arenas, size, align, k);
    arenas[k].lemma_alloc_result(size, align);
    arenas[k].lemma_level_exists(Arena::request_size(size, align));
    if arenas_wf(arenas) && arenas[k].regular() {
        let level = arenas[k].request_level(Arena::request_size(size, align));
        lemma_pow2_pos((arenas[k].levels - level) as nat);
        assert(arenas[k].request_bytes(size, align) > 0) by (nonlinear_arith)
            requires
                arenas[k].request_bytes(size, align) == arenas[k].block_size * pow2(
                    (arenas[k].levels - level) as nat,
                ),
                arenas[k].block_size > 0,
                pow2((arenas[k].levels - level) as nat) > 0,
        ;
        assert(arenas[k].contains(addr));
        assert forall|j: int| 0 <= j < k implies !(#[trigger] arenas[j]).contains(addr) by {
            assert(apart(arenas, j, k));
            assert(arenas[j].wf());
        }
        assert(owns_first(arenas, addr, k));
    }
    assert(served_at(arenas, size, align, k, addr));
}

/// A block that is given back as it was handed out leaves arenas that share
/// no byte and are regular exactly as they were before it was handed out:
/// every free list of every arena holds the same blocks at the same places.
pub proof fn lemma_manager_restores(arenas: Seq<Arena>, size: int, align: int)
    requires
        arenas_wf(arenas),
        arenas_regular(arenas),
        manager_alloc(arenas, size, align) is Some,
    ensures
        ({
            let (addr, rest) = manager_alloc(arenas, size, align)->0;
            manager_dealloc(rest, addr, size, align) == arenas
        }),
{
    let (addr, rest) = manager_alloc(arenas, size, align)->0;
    let k = first_server(arenas, size, align);
    lemma_manager_serves(arenas, size, align);
    let taken = arenas[k].after_alloc(size, align);
    assert(owns_first(rest, addr, k)) by {
        assert forall|j: int| 0 <= j < k implies !(#[trigger] rest[j]).contains(addr) by {
            assert(rest[j] == arenas[j]);
            assert(!arenas[j].contains(addr));
        }
    }
    let i = choose|i: int| owns_first(rest, addr, i);
    assert(i == k) by {
        if i < k {
            assert(!rest[i].contains(addr));
        } else if k < i {
            assert(rest[k].contains(addr));
        }
    }
    arenas[k].lemma_alloc_then_dealloc_lists(size, align);
    assert(taken.with_free(taken.dealloc_result(addr, size, align)) == arenas[k]);
    assert(manager_dealloc(rest, addr, size, align) =~= arenas);
}

/// Where some arena can serve a request, one of them is the first.
pub proof fn lemma_first_server(arenas: Seq<Arena>, size: int, align: int, i: int)
    requires
        0 <= i < arenas.len(),
        arenas[i].can_serve(size, align),
    ensures
        exists|k: int| serves_first(arenas, size, align, k),
    decreases i,
{
    if forall|j: int| 0 <= j < i ==> !(#[trigger] arenas[j]).can_serve(size, align) {
        assert(serves_first(arenas, size, align, i));
    } else {
        let j = choose|j: int| 0 <= j < i && (#[trigger] arenas[j]).can_serve(size, align);
        lemma_first_server(arenas, size, align, j);
    }
}

/// A request is served exactly where some arena can serve it.
pub proof fn lemma_manager_alloc(arenas: Seq<Arena>, size: int, align: int)
    requires
        arenas_ok(arenas),
    ensures
        manager_alloc(arenas, size, align) is Some <==> exists|i: int|
            0 <= i < arenas.len() && (#[trigger] arenas[i]).can_serve(size, align),
{
    if exists|i: int| 0 <= i < arenas.len() && (#[trigger] arenas[i]).can_serve(size, align) {
        let i = choose|i: int| 0 <= i < arenas.len() && (#[trigger] arenas[i]).can_serve(size, align);
        lemma_first_server(arenas, size, align, i);
        let k = choose|k: int| serves_first(arenas, size, align, k);
        arenas[k].lemma_alloc_result(size, align);
    }
    if manager_alloc(arenas, size, align) is Some {
        let k = choose|k: int| serves_first(arenas, size, align, k);
        assert(arenas[k].can_serve(size, align));
    }
}

/// Whether two rows of arenas have the same free bytes, arena by arena.
pub open spec fn same_free_bytes(a: Seq<Arena>, b: Seq<Arena>) -> bool {
    &&& a.len() == b.len()
    &&& forall|i: int| 0 <= i < a.len() ==> (#[trigger] a[i]).same_free_bytes(b[i])
}

/// A block that is given back as it was handed out leaves the free bytes of
/// tidy, regular arenas as they were before it was handed out: nothing is
/// lost.
pub proof fn lemma_manager_alloc_then_dealloc(arenas: Seq<Arena>, size: int, align: int)
    requires
        arenas_wf(arenas),
        arenas_tidy(arenas),
        arenas_regular(arenas),
        manager_alloc(arenas, size, align) is Some,
    ensures
        ({
            let (addr, rest) = manager_alloc(arenas, size, align)->0;
            let back = manager_dealloc(rest, addr, size, align);
            &&& 0 < addr <= usize::MAX
            &&& arenas_wf(rest)
            &&& arenas_tidy(rest)
            &&& arenas_regular(rest)
            &&& arenas_wf(back)
            &&& arenas_tidy(back)
            &&& arenas_regular(back)
            &&& same_free_bytes(back, arenas)
        }),
{
    let (addr, rest) = manager_alloc(arenas, size, align)->0;
    let back = manager_dealloc(rest, addr, size, align);
    let i = choose|i: int| serves_first(arenas, size, align, i);
    let arena = arenas[i];
    arena.lemma_alloc_result(size, align);
    arena.lemma_alloc_then_dealloc(size, align);
    let req = Arena::request_size(size, align);
    arena.lemma_level_exists(req);
    let level = arena.request_level(req);
    lemma_pow2_pos(level as nat);
    arena.lemma_block_within(level, 0);
    let taken = arena.after_alloc(size, align);
    assert(rest == arenas.update(i, taken));
    assert(arenas_wf(rest)) by {
        assert forall|a: int, b: int| 0 <= a < b < rest.len() implies #[trigger] apart(rest, a, b) by {
            assert(apart(arenas, a, b));
        }
    }
    assert(owns_first(rest, addr, i)) by {
        assert forall|j: int| 0 <= j < i implies !(#[trigger] rest[j]).contains(addr) by {
            assert(apart(arenas, j, i));
            assert(arenas[j].wf());
        }
    }
    let k = choose|k: int| owns_first(rest, addr, k);
    assert(k == i) by {
        if k < i {
            assert(!rest[k].contains(addr));
        } else if i < k {
            assert(rest[i].contains(addr));
        }
    }
    let restored = taken.with_free(taken.dealloc_result(addr, size, align));
    assert(back == rest.update(i, restored));
    assert forall|a: int, b: int| 0 <= a < b < back.len() implies #[trigger] apart(back, a, b) by {
        assert(apart(arenas, a, b));
    }
    assert forall|j: int| 0 <= j < back.len() implies (#[trigger] back[j]).same_free_bytes(
        arenas[j],
    ) by {
        if j != i {
            assert(back[j] == arenas[j]);
        }
    }
    assert forall|j: int| 0 <= j < back.len() implies (#[trigger] back[j]).wf() && back[j].tidy()
        && back[j].regular() by {
        if j != i {
            assert(back[j] == arenas[j]);
        }
    }
    assert forall|j: int| 0 <= j < rest.len() implies (#[trigger] rest[j]).wf() && rest[j].tidy()
        && rest[j].regular() by {
        if j != i {
            assert(rest[j] == arenas[j]);
        }
    }
}

/// The arenas of host-shared memory, in the order in which they were added.
/// Requests go to the first arena that can serve them.
pub struct BuddyAllocatorManager {
    buddy_allocators: Vec<BuddyAllocator>,
}

impl View for BuddyAllocatorManager {
    type V = Seq<Arena>;

    closed spec fn view(&self) -> Seq<Arena> {
        Seq::new(self.buddy_allocators@.len(), |i: int| self.buddy_allocators@[i]@)
    }
}

impl BuddyAllocatorManager {
    /// Whether every arena is in order.
    pub open spec fn wf(&self) -> bool {
        arenas_ok(self@)
    }

    /// A manager without arenas.
    pub fn new() -> (m: BuddyAllocatorManager)
        ensures
            m@ == Seq::<Arena>::empty(),
            m.wf(),
    {
        let m = BuddyAllocatorManager { buddy_allocators: Vec::new() };
        assert(m@ =~= Seq::<Arena>::empty());
        m
    }

    /// A copy of the arenas as they stand.
    pub fn snapshot(&self) -> (m: BuddyAllocatorManager)
        ensures
            m@ == self@,
    {
        let mut buddy_allocators: Vec<BuddyAllocator> = Vec::with_capacity(
            self.buddy_allocators.len(),
        );
        let mut i: usize = 0;
        while i < self.buddy_allocators.len()
            invariant
                i <= self.buddy_allocators.len(),
                buddy_allocators@.len() == i,
                forall|j: int|
                    0 <= j < i ==> (#[trigger] buddy_allocators@[j])@ == self.buddy_allocators@[j]@,
            decreases self.buddy_allocators.len() - i,
        {
            buddy_allocators.push(self.buddy_allocators[i].snapshot());
            i = i + 1;
        }
        let m = BuddyAllocatorManager { buddy_allocators };
        assert(m@ =~= self@);
        m
    }

    /// Whether the range `[start, end)` shares no byte with the root block of
    /// any arena that is there.
    pub fn clear_of(&self, start: usize, end: usize) -> (r: bool)
        requires
            self.wf(),
        ensures
            r == clear_of_arenas(self@, start as int, end as int),
    {
        let mut i: usize = 0;
        while i < self.buddy_allocators.len()
            invariant
                self.wf(),
                i <= self.buddy_allocators.len(),
                self@.len() == self.buddy_allocators.len(),
                forall|j: int|
                    0 <= j < i ==> end <= (#[trigger] self@[j]).start || self@[j].start
                        + self@[j].max_size() <= start,
            decreases self.buddy_allocators.len() - i,
        {
            assert(self@[i as int] == self.buddy_allocators@[i as int]@);
            assert(self@[i as int].wf());
            let other_start: usize = self.buddy_allocators[i].start_addr();
            let other_size: usize = self.buddy_allocators[i].max_size();
            if !(end <= other_start || other_start + other_size <= start) {
                return false;
            }
            i = i + 1;
        }
        true
    }

    /// Adds the arena `[start_addr, end_addr)` with leaves of `block_size`
    /// bytes, where such an arena can be laid. Returns whether it was added.
    /// Nothing is asked of where the arena lies among the others: arenas that
    /// shared no byte share none afterwards if the new one lies clear of
    /// them.
    pub fn add_memory_area(&mut self, start_addr: usize, end_addr: usize, block_size: u16) -> (added:
        bool)
        requires
            old(self).wf(),
        ensures
            final(self).wf(),
            added <==> Arena::region_ok(start_addr as int, end_addr as int, block_size as int),
            added ==> final(self)@ == old(self)@.push(
                Arena::fresh(start_addr as int, end_addr as int, block_size as int),
            ),
            !added ==> final(self)@ == old(self)@,
            arenas_tidy(old(self)@) ==> arenas_tidy(final(self)@),
            added && arenas_wf(old(self)@) && clear_of_arenas(
                old(self)@,
                start_addr as int,
                start_addr + Arena::fresh(
                    start_addr as int,
                    end_addr as int,
                    block_size as int,
                ).max_size(),
            ) ==> arenas_wf(final(self)@),
    {
        if !BuddyAllocator::region_ok(start_addr, end_addr, block_size) {
            return false;
        }
        let new_buddy_alloc = BuddyAllocator::new(start_addr, end_addr, block_size);
        let ghost arena = new_buddy_alloc@;
        let ghost before = self@;
        self.buddy_allocators.push(new_buddy_alloc);
        proof {
            arena.lemma_fresh_tidy();
            assert(self@ =~= before.push(arena));
            if arenas_wf(before) && clear_of_arenas(
                before,
                start_addr as int,
                start_addr + arena.max_size(),
            ) {
                assert forall|i: int, j: int| 0 <= i < j < self@.len() implies #[trigger] apart(
                    self@,
                    i,
                    j,
                ) by {
                    if j < before.len() {
                        assert(apart(before, i, j));
                    } else {
                        assert(self@[i] == before[i]);
                    }
                }
            }
        }
        true
    }

    /// Adds the range of `size` bytes from `start` as an arena with leaves of
    /// `block_size` bytes, where it does not run past the end of the address
    /// space and such an arena can be laid. Returns whether it was added.
    pub fn init(&mut self, start: usize, size: usize, block_size: u16) -> (added: bool)
        requires
            old(self).wf(),
        ensures
            final(self).wf(),
            added <==> start + size <= usize::MAX && Arena::region_ok(
                start as int,
                start + size,
                block_size as int,
            ),
            added ==> final(self)@ == old(self)@.push(
                Arena::fresh(start as int, start + size, block_size as int),
            ),
            !added ==> final(self)@ == old(self)@,
            arenas_tidy(old(self)@) ==> arenas_tidy(final(self)@),
            added && arenas_wf(old(self)@) && clear_of_arenas(
                old(self)@,
                start as int,
                start + Arena::fresh(start as int, start + size, block_size as int).max_size(),
            ) ==> arenas_wf(final(self)@),
    {
        match start.checked_add(size) {
            Some(end) => self.add_memory_area(start, end, block_size),
            None => false,
        }
    }

    /// Serves a request for `size` bytes aligned to `alignment` from the first
    /// arena that can serve it. The block that is handed out must not begin
    /// at address zero, which stands for no block: no request may be made
    /// that an arena at address zero would serve with its first block.
    pub fn allocate(&mut self, size: usize, alignment: usize) -> (r: Result<usize, ()>)
        requires
            old(self).wf(),
            manager_alloc(old(self)@, size as int, alignment as int) is Some ==> alloc_addr(
                old(self)@[first_server(old(self)@, size as int, alignment as int)],
                size as int,
                alignment as int,
            ) != 0,
        ensures
            final(self).wf(),
            arenas_tidy(old(self)@) ==> arenas_tidy(final(self)@),
            arenas_wf(old(self)@) ==> arenas_wf(final(self)@),
            r matches Ok(addr) ==> addr != 0,
            match manager_alloc(old(self)@, size as int, alignment as int) {
                Some((addr, rest)) => r == Ok::<usize, ()>(addr as usize) && addr <= usize::MAX
                    && final(self)@ == rest,
                None => r is Err && final(self)@ == old(self)@,
            },
            r matches Ok(addr) ==> ({
                let k = first_server(old(self)@, size as int, alignment as int);
                &&& served_at(old(self)@, size as int, alignment as int, k, addr as int)
                &&& final(self)@ == old(self)@.update(
                    k,
                    old(self)@[k].after_alloc(size as int, alignment as int),
                )
                &&& arenas_wf(old(self)@) && old(self)@[k].regular() ==> routed_to(
                    old(self)@,
                    size as int,
                    alignment as int,
                    k,
                    addr as int,
                )
            }),
            r is Err <==> forall|k: int|
                0 <= k < old(self)@.len() ==> !(#[trigger] old(self)@[k]).can_serve(
                    size as int,
                    alignment as int,
                ),
    {
        proof {
            lemma_manager_alloc(self@, size as int, alignment as int);
        }
        let mut i: usize = 0;
        while i < self.buddy_allocators.len()
            invariant
                self@ == old(self)@,
                self.wf(),
                i <= self.buddy_allocators.len(),
                self@.len() == self.buddy_allocators.len(),
                manager_alloc(old(self)@, size as int, alignment as int) is Some ==> alloc_addr(
                    old(self)@[first_server(old(self)@, size as int, alignment as int)],
                    size as int,
                    alignment as int,
                ) != 0,
                forall|j: int|
                    0 <= j < i ==> !(#[trigger] old(self)@[j]).can_serve(
                        size as int,
                        alignment as int,
                    ),
            decreases self.buddy_allocators.len() - i,
        {
            let ghost before = self@;
            assert(before[i as int] == self.buddy_allocators@[i as int]@);
            assert(before[i as int].wf());
            let found = self.buddy_allocators[i].allocate(size, alignment);
            match found {
                Some(addr) => {
                    proof {
                        let arena = before[i as int];
                        let after = arena.after_alloc(size as int, alignment as int);
                        arena.lemma_alloc_result(size as int, alignment as int);
                        arena.lemma_level_exists(Arena::request_size(size as int, alignment as int));
                        arena.lemma_block_bytes_monotone(
                            0,
                            arena.request_level(
                                Arena::request_size(size as int, alignment as int),
                            ),
                        );
                        assert(self@ =~= before.update(i as int, after));
                        assert(serves_first(before, size as int, alignment as int, i as int));
                        let k = choose|k: int|
                            serves_first(before, size as int, alignment as int, k);
                        assert(k == i) by {
                            if k < i {
                                assert(!before[k].can_serve(size as int, alignment as int));
                            } else if i < k {
                                assert(before[i as int].can_serve(size as int, alignment as int));
                            }
                        }
                        if arenas_wf(before) {
                            assert forall|a: int, b: int|
                                0 <= a < b < self@.len() implies #[trigger] apart(self@, a, b) by {
                                assert(apart(before, a, b));
                            }
                        }
                        if arenas_tidy(before) {
                            assert(arena.tidy());
                        }
                        assert(first_server(before, size as int, alignment as int) == i);
                        assert(manager_alloc(before, size as int, alignment as int) is Some);
                        assert(alloc_addr(arena, size as int, alignment as int) == addr);
                        lemma_manager_serves(before, size as int, alignment as int);
                        assert(served_at(
                            before,
                            size as int,
                            alignment as int,
                            i as int,
                            addr as int,
                        ) && self@ == before.update(
                            i as int,
                            before[i as int].after_alloc(size as int, alignment as int),
                        ));
                    }
                    return Ok(addr);
                },
                None => {
                    assert(self@ =~= before);
                },
            }
            i = i + 1;
        }
        proof {
            assert forall|k: int| #[trigger]
                serves_first(old(self)@, size as int, alignment as int, k) implies false by {
                assert(!old(self)@[k].can_serve(size as int, alignment as int));
            }
        }
        Err(())
    }

    /// Gives the block at `addr` that served a request for `size` bytes
    /// aligned to `alignment` back to the first arena in which `addr` lies.
    /// Where it lies in none, nothing happens.
    pub fn dealloc(&mut self, addr: usize, size: usize, alignment: usize)
        requires
            old(self).wf(),
        ensures
            final(self).wf(),
            arenas_wf(old(self)@) ==> arenas_wf(final(self)@),
            final(self)@ == manager_dealloc(old(self)@, addr as int, size as int, alignment as int),
    {
        let mut i: usize = 0;
        while i < self.buddy_allocators.len()
            invariant
                self@ == old(self)@,
                self.wf(),
                i <= self.buddy_allocators.len(),
                self@.len() == self.buddy_allocators.len(),
                forall|j: int| 0 <= j < i ==> !(#[trigger] old(self)@[j]).contains(addr as int),
            decreases self.buddy_allocators.len() - i,
        {
            let ghost before = self@;
            assert(before[i as int] == self.buddy_allocators@[i as int]@);
            assert(before[i as int].wf());
            if self.buddy_allocators[i].contains(addr) {
                self.buddy_allocators[i].dealloc(addr, size, alignment);
                proof {
                    let arena = before[i as int];
                    let after = arena.with_free(
                        arena.dealloc_result(addr as int, size as int, alignment as int),
                    );
                    assert(self@ =~= before.update(i as int, after));
                    if arenas_wf(before) {
                        assert forall|a: int, b: int|
                            0 <= a < b < self@.len() implies #[trigger] apart(self@, a, b) by {
                            assert(apart(before, a, b));
                        }
                    }
                    assert(owns_first(before, addr as int, i as int));
                    let k = choose|k: int| owns_first(before, addr as int, k);
                    assert(k == i) by {
                        if k < i {
                            assert(!before[k].contains(addr as int));
                        } else if i < k {
                            assert(before[i as int].contains(addr as int));
                        }
                    }
                }
                return ;
            }
            i = i + 1;
        }
        proof {
            assert forall|k: int| #[trigger] owns_first(old(self)@, addr as int, k) implies false by {
                assert(!old(self)@[k].contains(addr as int));
            }
        }
    }

    /// Whether `addr` lies in one of the arenas.
    pub fn owns(&self, addr: usize) -> (r: bool)
        ensures
            r == arenas_own(self@, addr as int),
    {
        let mut i: usize = 0;
        while i < self.buddy_allocators.len()
            invariant
                i <= self.buddy_allocators.len(),
                self@.len() == self.buddy_allocators.len(),
                forall|j: int| 0 <= j < i ==> !(#[trigger] self@[j]).contains(addr as int),
            decreases self.buddy_allocators.len() - i,
        {
            assert(self@[i as int] == self.buddy_allocators@[i as int]@);
            if self.buddy_allocators[i].contains(addr) {
                return true;
            }
            i = i + 1;
        }
        false
    }

    /// The figures of every arena, in the order in which they were added.
    pub fn reports(&self) -> (r: Vec<ArenaReport>)
        requires
            self.wf(),
        ensures
            r@.len() == self@.len(),
            forall|i: int| 0 <= i < self@.len() ==> (#[trigger] r@[i]).shows(self@[i]),
    {
        let mut reports: Vec<ArenaReport> = Vec::new();
        let mut i: usize = 0;
        while i < self.buddy_allocators.len()
            invariant
                self.wf(),
                i <= self.buddy_allocators.len(),
                self@.len() == self.buddy_allocators.len(),
                reports@.len() == i,
                forall|j: int| 0 <= j < i ==> (#[trigger] reports@[j]).shows(self@[j]),
            decreases self.buddy_allocators.len() - i,
        {
            assert(self@[i as int] == self.buddy_allocators@[i as int]@);
            assert(self@[i as int].wf());
            reports.push(self.buddy_allocators[i].report());
            i = i + 1;
        }
        reports
    }

    /// The first address of every arena, in the order in which they were
    /// added.
    pub fn fetch_memory_ranges(&self) -> (r: Result<Vec<usize>, ()>)
        ensures
            r matches Ok(ranges) && ranges@.len() == self@.len() && forall|i: int|
                0 <= i < self@.len() ==> ranges@[i] == (#[trigger] self@[i]).start,
    {
        let mut ranges: Vec<usize> = Vec::new();
        let mut i: usize = 0;
        while i < self.buddy_allocators.len()
            invariant
                i <= self.buddy_allocators.len(),
                self@.len() == self.buddy_allocators.len(),
                ranges@.len() == i,
                forall|j: int| 0 <= j < i ==> ranges@[j] == (#[trigger] self@[j]).start,
            decreases self.buddy_allocators.len() - i,
        {
            assert(self@[i as int] == self.buddy_allocators@[i as int]@);
            ranges.push(self.buddy_allocators[i].start_addr());
            i = i + 1;
        }
        Ok(ranges)
    }
}

} // verus!
