//! The mathematical model of the allocator: an abstract state holding the
//! per-order free lists, the pair bitmap and the set of outstanding
//! allocations, together with its well-formedness invariant and the spec-level
//! transitions that `alloc` and `free` refine.

use vstd::prelude::*;

verus! {

use crate::common::Error;
use crate::common::align_down;
use crate::common::align_up;
use crate::common::spec_log2;
use vstd::arithmetic::power2::pow2;

/// A block: a `2^order`-sized, `2^order`-aligned address range starting at `addr`.
pub ghost struct Block {
    pub order: int,
    pub addr: int,
}

/// The abstract allocator state.
///
/// `free[i]` is the stack of free block addresses of order `min_order + i`
/// (the last element is the list head).  `bits` is the flat pair bitmap.
/// `allocated` is the set of blocks handed out by `alloc` and not yet
/// released.
#[verifier::ext_equal]
pub ghost struct AllocModel {
    pub min_order: int,
    pub max_order: int,
    pub map_from: int,
    pub map_factor: int,
    pub free: Seq<Seq<int>>,
    pub bits: Seq<bool>,
    pub allocated: Set<Block>,
}

/// Number of tracked orders.
pub open spec fn norders(m: AllocModel) -> int {
    m.max_order - m.min_order + 1
}

/// Size in bytes of the bookkeeping span.
pub open spec fn span(m: AllocModel) -> int {
    m.map_factor * pow2(m.max_order as nat)
}

/// One past the last address of the bookkeeping span.
pub open spec fn map_to(m: AllocModel) -> int {
    m.map_from + span(m)
}

/// The free list of order `k`.
pub open spec fn list_at(m: AllocModel, k: int) -> Seq<int> {
    m.free[k - m.min_order]
}

/// Whether a block of order `k` at `a` is on its free list.
pub open spec fn is_free(m: AllocModel, k: int, a: int) -> bool {
    list_at(m, k).contains(a)
}

/// Number of buddy-pair slots tracked at order `k`, for a span of
/// `factor` top-order blocks of order `max`.
pub open spec fn order_pairs(max: int, factor: int, k: int) -> int {
    if k == max {
        (factor + 1) / 2
    } else {
        factor * pow2((max - k - 1) as nat)
    }
}

/// Cumulative pair-slot count of all orders above `k`.
pub open spec fn order_offset(max: int, factor: int, k: int) -> int
    decreases max - k,
{
    if k >= max {
        0
    } else {
        order_offset(max, factor, k + 1) + order_pairs(max, factor, k + 1)
    }
}

/// Number of buddy-pair slots tracked at order `k`.
pub open spec fn pairs_at(m: AllocModel, k: int) -> int {
    order_pairs(m.max_order, m.map_factor, k)
}

/// Cumulative pair-slot count of all orders above `k`: the first bitmap index
/// used by order `k`.
pub open spec fn bit_offset(m: AllocModel, k: int) -> int {
    order_offset(m.max_order, m.map_factor, k)
}

/// Total length of the pair bitmap.
pub open spec fn total_bits(m: AllocModel) -> int {
    bit_offset(m, m.min_order) + pairs_at(m, m.min_order)
}

/// The pair index of address `a` at order `k`.
pub open spec fn pair_of(m: AllocModel, k: int, a: int) -> int {
    (a - m.map_from) / (2 * pow2(k as nat)) as int
}

/// The flat bitmap index of the buddy pair of `a` at order `k`.
pub open spec fn slot(m: AllocModel, k: int, a: int) -> int {
    bit_offset(m, k) + pair_of(m, k, a)
}

/// The lower member of pair `p` at order `k`.
pub open spec fn pair_low(m: AllocModel, k: int, p: int) -> int {
    m.map_from + p * (2 * pow2(k as nat)) as int
}

/// The other member of the buddy pair of `a` at order `k`.
pub open spec fn buddy(m: AllocModel, k: int, a: int) -> int {
    if ((a - m.map_from) / pow2(k as nat) as int) % 2 == 0 {
        a + pow2(k as nat)
    } else {
        a - pow2(k as nat)
    }
}

/// A valid block of order `k` at `a`: tracked order, natural alignment
/// relative to the bookkeeping base, fully inside the span.
pub open spec fn block_ok(m: AllocModel, k: int, a: int) -> bool {
    &&& m.min_order <= k <= m.max_order
    &&& m.map_from <= a
    &&& a + pow2(k as nat) <= map_to(m)
    &&& (a - m.map_from) % pow2(k as nat) as int == 0
}

/// Two blocks occupy non-overlapping address ranges.
pub open spec fn blocks_disjoint(k1: int, a1: int, k2: int, a2: int) -> bool {
    a1 + pow2(k1 as nat) <= a2 || a2 + pow2(k2 as nat) <= a1
}

/// Structural part of the invariant: field ranges and table lengths.
pub open spec fn wf_config(m: AllocModel) -> bool {
    &&& 0 <= m.min_order <= m.max_order < 64
    &&& m.map_factor >= 1
    &&& m.map_from >= 0
    &&& m.map_from % pow2(m.max_order as nat) as int == 0
    &&& map_to(m) <= usize::MAX
    &&& m.free.len() == norders(m)
    &&& m.bits.len() == total_bits(m)
}

/// Every listed free block and every outstanding allocation is a valid block,
/// and no free list holds an address twice.
pub open spec fn wf_blocks(m: AllocModel) -> bool {
    &&& forall|k: int, a: int|
        m.min_order <= k <= m.max_order && #[trigger] is_free(m, k, a) ==> block_ok(m, k, a)
    &&& forall|b: Block| #[trigger] m.allocated.contains(b) ==> block_ok(m, b.order, b.addr)
    &&& forall|k: int|
        m.min_order <= k <= m.max_order ==> (#[trigger] list_at(m, k)).no_duplicates()
}

/// No two tracked blocks (free or allocated) overlap.
pub open spec fn wf_disjoint(m: AllocModel) -> bool {
    &&& forall|k1: int, a1: int, k2: int, a2: int|
        m.min_order <= k1 <= m.max_order && m.min_order <= k2 <= m.max_order && #[trigger] is_free(
            m,
            k1,
            a1,
        ) && #[trigger] is_free(m, k2, a2) && (k1 != k2 || a1 != a2) ==> blocks_disjoint(
            k1,
            a1,
            k2,
            a2,
        )
    &&& forall|k: int, a: int, b: Block|
        m.min_order <= k <= m.max_order && #[trigger] is_free(m, k, a)
            && #[trigger] m.allocated.contains(b) ==> blocks_disjoint(k, a, b.order, b.addr)
    &&& forall|b1: Block, b2: Block|
        #[trigger] m.allocated.contains(b1) && #[trigger] m.allocated.contains(b2) && b1 != b2
            ==> blocks_disjoint(b1.order, b1.addr, b2.order, b2.addr)
}

/// The bit of pair `p` at order `k` equals "exactly one member is free".
pub open spec fn xor_ok(m: AllocModel, k: int, p: int) -> bool {
    m.bits[bit_offset(m, k) + p] == (is_free(m, k, pair_low(m, k, p)) != is_free(
        m,
        k,
        pair_low(m, k, p) + pow2(k as nat),
    ))
}

/// The XOR invariant holds of every tracked pair.
pub open spec fn wf_bits(m: AllocModel) -> bool {
    forall|k: int, p: int|
        m.min_order <= k <= m.max_order && 0 <= p < pairs_at(m, k) ==> #[trigger] xor_ok(m, k, p)
}

/// Below the top order, the two members of a pair are never both free
/// (two free buddies always coalesce).
pub open spec fn pair_not_split(m: AllocModel, k: int, p: int) -> bool {
    !(is_free(m, k, pair_low(m, k, p)) && is_free(m, k, pair_low(m, k, p) + pow2(k as nat)))
}

pub open spec fn wf_pairs(m: AllocModel) -> bool {
    forall|k: int, p: int|
        m.min_order <= k < m.max_order && 0 <= p < pairs_at(m, k) ==> #[trigger] pair_not_split(
            m,
            k,
            p,
        )
}

/// The full invariant of a reachable allocator state.
pub open spec fn wf(m: AllocModel) -> bool {
    wf_config(m) && wf_blocks(m) && wf_disjoint(m) && wf_bits(m) && wf_pairs(m)
}

/// The block of order `k` at `a` is momentarily held by the engine (mid-split
/// or mid-coalesce): it is valid and overlaps no tracked block.
pub open spec fn hole_ok(m: AllocModel, k: int, a: int) -> bool {
    &&& block_ok(m, k, a)
    &&& forall|k2: int, x: int|
        m.min_order <= k2 <= m.max_order && #[trigger] is_free(m, k2, x) ==> blocks_disjoint(
            k2,
            x,
            k,
            a,
        )
    &&& forall|b: Block|
        #[trigger] m.allocated.contains(b) ==> blocks_disjoint(b.order, b.addr, k, a)
}

// ---------------------------------------------------------------------------
// State transitions.
// ---------------------------------------------------------------------------
/// Replace the free list of order `k`.
pub open spec fn with_list(m: AllocModel, k: int, s: Seq<int>) -> AllocModel {
    AllocModel { free: m.free.update(k - m.min_order, s), ..m }
}

/// Push `a` as the new head of order `k`'s free list.
pub open spec fn push_free(m: AllocModel, k: int, a: int) -> AllocModel {
    with_list(m, k, list_at(m, k).push(a))
}

/// Remove the head of order `k`'s free list.
pub open spec fn pop_free(m: AllocModel, k: int) -> AllocModel {
    with_list(m, k, list_at(m, k).drop_last())
}

/// Unlink the block at `a` from order `k`'s free list.
pub open spec fn remove_free(m: AllocModel, k: int, a: int) -> AllocModel {
    with_list(m, k, list_at(m, k).remove_value(a))
}

/// Flip the pair bit of `a` at order `k`.
pub open spec fn toggle_bit(m: AllocModel, k: int, a: int) -> AllocModel {
    AllocModel { bits: m.bits.update(slot(m, k, a), !m.bits[slot(m, k, a)]), ..m }
}

/// Link the block at `a` into order `k`'s free list and flip its pair bit.
pub open spec fn add_block(m: AllocModel, k: int, a: int) -> AllocModel {
    toggle_bit(push_free(m, k, a), k, a)
}

/// Record the block of order `k` at `a` as handed out.
pub open spec fn mark_allocated(m: AllocModel, k: int, a: int) -> AllocModel {
    AllocModel { allocated: m.allocated.insert(Block { order: k, addr: a }), ..m }
}

/// Forget an outstanding allocation.
pub open spec fn unmark_allocated(m: AllocModel, k: int, a: int) -> AllocModel {
    AllocModel { allocated: m.allocated.remove(Block { order: k, addr: a }), ..m }
}

/// The smallest order in `[k, max_order]` whose free list is non-empty.
pub open spec fn find_free_order(m: AllocModel, k: int) -> Option<int>
    decreases m.max_order + 1 - k,
{
    if k > m.max_order {
        None
    } else if list_at(m, k).len() > 0 {
        Some(k)
    } else {
        find_free_order(m, k + 1)
    }
}

/// Split a donor block of order `k` at `a` down to order `o`, pushing the
/// upper half at each level and keeping the lower half.
pub open spec fn split_blocks(m: AllocModel, k: int, o: int, a: int) -> AllocModel
    decreases k - o,
{
    if k <= o {
        m
    } else {
        split_blocks(add_block(m, k - 1, a + pow2((k - 1) as nat)), k - 1, o, a)
    }
}

/// What `alloc(o)` does to the state, and what it returns.
pub open spec fn spec_alloc(m: AllocModel, o: int) -> (AllocModel, Result<int, Error>) {
    if o < m.min_order || o > m.max_order {
        (m, Result::Err(Error::InvalidOrder))
    } else {
        match find_free_order(m, o) {
            Option::None => (m, Result::Err(Error::OutOfMemory)),
            Option::Some(k) => {
                let a = list_at(m, k).last();
                let m1 = toggle_bit(pop_free(m, k), k, a);
                let m2 = split_blocks(m1, k, o, a);
                (mark_allocated(m2, o, a), Result::Ok(a))
            },
        }
    }
}

/// Coalescing ascent of `free`: starting from a held block of order `k` at
/// `a`, either park it (pair bit clear, or top order reached) or merge it
/// with its free buddy and continue one order up.
pub open spec fn spec_coalesce(m: AllocModel, k: int, a: int) -> AllocModel
    decreases m.max_order - k,
{
    if k >= m.max_order || !m.bits[slot(m, k, a)] {
        add_block(m, k, a)
    } else {
        let b = buddy(m, k, a);
        let parent = if a < b {
            a
        } else {
            b
        };
        spec_coalesce(toggle_bit(remove_free(m, k, b), k, a), k + 1, parent)
    }
}

/// What `free(o, a)` does to the state, and what it returns.
pub open spec fn spec_free(m: AllocModel, o: int, a: int) -> (AllocModel, Result<(), Error>) {
    if o < m.min_order || o > m.max_order {
        (m, Result::Err(Error::InvalidOrder))
    } else {
        (spec_coalesce(unmark_allocated(m, o, a), o, a), Result::Ok(()))
    }
}

/// The derived top order of a region: the largest order at which the region
/// holds at least one fully contained, naturally aligned block.  It is the
/// order of the highest set bit of `size`, less one when alignment leaves no
/// whole block at that order.
pub open spec fn top_order(addr: int, size: int) -> int {
    let o = spec_log2(size);
    if align_up(addr, o as nat) != align_down(addr + size, o as nat) {
        o
    } else {
        o - 1
    }
}

/// The number of top-order blocks in the bookkeeping span of a region.
pub open spec fn init_map_factor(addr: int, size: int) -> int {
    let mx = top_order(addr, size);
    (align_up(addr + size, mx as nat) - align_down(addr, mx as nat)) / pow2(mx as nat) as int
}

/// Packed size in bytes of the bookkeeping: one 64-bit word per tracked
/// order's list head, plus the pair bitmap packed into 64-bit words.
pub open spec fn bookkeeping_bytes(min: int, max: int, factor: int) -> int {
    let bits = order_offset(max, factor, min) + order_pairs(max, factor, min);
    (max - min + 1) * 8 + ((bits - 1) / 64 + 1) * 8
}

/// When construction fails for want of room: either no aligned block of at
/// least `min` exists, or the largest aligned run cannot host one free-list
/// link and the bookkeeping.
pub open spec fn init_too_small(min: int, addr: int, size: int) -> bool {
    let mx = top_order(addr, size);
    ||| mx < min
    ||| align_down(addr + size, mx as nat) - align_up(addr, mx as nat) < 16 + bookkeeping_bytes(
        min,
        mx,
        init_map_factor(addr, size),
    )
}

/// Some free block covers address `x`.
pub open spec fn covered(m: AllocModel, x: int) -> bool {
    exists|k: int, a: int|
        m.min_order <= k <= m.max_order && #[trigger] is_free(m, k, a) && a <= x < a + pow2(
            k as nat,
        )
}

/// Total number of free bytes.
pub open spec fn free_bytes_upto(m: AllocModel, n: int) -> int
    decreases n,
{
    if n <= 0 {
        0
    } else {
        free_bytes_upto(m, n - 1) + m.free[n - 1].len() * pow2((m.min_order + n - 1) as nat)
    }
}

pub open spec fn free_bytes(m: AllocModel) -> int {
    free_bytes_upto(m, m.free.len() as int)
}

} // verus!
