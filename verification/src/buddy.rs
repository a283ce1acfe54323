//! The buddy allocator engine: per-order free lists, the pair bitmap, and the
//! allocate/split and free/coalesce algorithms.

use vstd::prelude::*;

verus! {

use crate::common::Error;
use crate::common::align_addr_higher;
use crate::common::align_addr_lower;
use crate::common::align_down;
use crate::common::align_up;
use crate::common::log2_floor;
use crate::common::pow2_exec;
use crate::common::lemma_align_down;
use crate::common::lemma_align_up;
use crate::common::lemma_align_up_succ;
use crate::common::lemma_align_down_succ;
use crate::common::lemma_pow2_mod_divides;
use crate::invariants::lemma_mark_hole;
use crate::invariants::lemma_offset_ordered;
use crate::invariants::lemma_pair_of_block;
use crate::invariants::lemma_pairs_at_pos;
use crate::invariants::lemma_release_merge;
use crate::invariants::lemma_release_stop;
use crate::invariants::lemma_slot_ok;
use crate::invariants::lemma_split_push;
use crate::invariants::lemma_take_donor;
use crate::invariants::lemma_unmark_hole;
use crate::model::AllocModel;
use crate::model::Block;
use crate::model::add_block;
use crate::model::bit_offset;
use crate::model::block_ok;
use crate::model::buddy;
use crate::model::covered;
use crate::model::find_free_order;
use crate::model::hole_ok;
use crate::model::is_free;
use crate::model::list_at;
use crate::model::map_to;
use crate::model::mark_allocated;
use crate::model::order_offset;
use crate::model::order_pairs;
use crate::model::pair_of;
use crate::model::pairs_at;
use crate::model::pop_free;
use crate::model::push_free;
use crate::model::remove_free;
use crate::model::slot;
use crate::model::span;
use crate::model::spec_alloc;
use crate::model::spec_coalesce;
use crate::model::spec_free;
use crate::model::split_blocks;
use crate::model::toggle_bit;
use crate::model::total_bits;
use crate::model::top_order;
use crate::model::init_map_factor;
use crate::model::init_too_small;
use crate::model::bookkeeping_bytes;
use crate::model::unmark_allocated;
use crate::model::wf_config;
use vstd::arithmetic::div_mod::lemma_div_denominator;
use vstd::arithmetic::div_mod::lemma_fundamental_div_mod;
use vstd::arithmetic::power2::lemma_pow2_pos;
use vstd::arithmetic::power2::lemma_pow2_strictly_increases;
use vstd::arithmetic::power2::pow2;

/// The buddy allocator engine.
///
/// Addresses are opaque integers: the engine decides which `2^order`-sized,
/// naturally aligned blocks of its managed span are free, handed out, or
/// split, and never dereferences them.
pub struct BuddyAlloc {
    min_order: u8,
    max_order: u8,
    map_from_addr: usize,
    map_factor: usize,
    free_lists: Vec<Vec<usize>>,
    map: Vec<bool>,
    allocated: Ghost<Set<Block>>,
}

impl View for BuddyAlloc {
    type V = AllocModel;

    closed spec fn view(&self) -> AllocModel {
        AllocModel {
            min_order: self.min_order as int,
            max_order: self.max_order as int,
            map_from: self.map_from_addr as int,
            map_factor: self.map_factor as int,
            free: Seq::new(
                self.free_lists@.len() as nat,
                |i: int| self.free_lists@[i]@.map_values(|x: usize| x as int),
            ),
            bits: self.map@,
            allocated: self.allocated@,
        }
    }
}

/// `pow2(k)` fits in `usize` for every tracked order `k`.
proof fn lemma_order_fits(m: AllocModel, k: int)
    requires
        wf_config(m),
        0 <= k <= m.max_order,
    ensures
        pow2(k as nat) <= usize::MAX,
{
    if k < m.max_order {
        lemma_pow2_strictly_increases(k as nat, m.max_order as nat);
    }
    lemma_pow2_pos(m.max_order as nat);
    assert(m.map_factor * pow2(m.max_order as nat) >= pow2(m.max_order as nat))
        by (nonlinear_arith)
        requires
            m.map_factor >= 1,
            pow2(m.max_order as nat) >= 1,
    ;
}

impl BuddyAlloc {
    /// The allocator's full state invariant.
    pub open spec fn wf(&self) -> bool {
        crate::model::wf(self@)
    }

    /// Create an allocator over the region `[addr, addr + size)` with the
    /// given minimum block order.
    ///
    /// Fails with `MinOrderTooLow` exactly when `2^min_order` cannot host one
    /// two-word free-list link, and with `NotEnoughSpaceForBookkeeping`
    /// exactly when the region holds no aligned block of order at least
    /// `min_order`, or its largest aligned run cannot host one link plus the
    /// bookkeeping.  On success every free list entry is a block inside the
    /// caller's region rounded inward to `min_order` granularity, no two
    /// blocks overlap, the pair bitmap is consistent, and nothing is marked
    /// allocated.
    #[verifier::rlimit(100)]
    pub fn new(min_order: u8, addr: usize, size: usize) -> (r: Result<BuddyAlloc, Error>)
        requires
            size >= 1,
            addr + 2 * size - 1 <= usize::MAX,
        ensures
            (match r {
                Result::Ok(b) => {
                    &&& pow2(min_order as nat) >= 16
                    &&& !init_too_small(min_order as int, addr as int, size as int)
                    &&& b.wf()
                    &&& b@.min_order == min_order as int
                    &&& b@.max_order == top_order(addr as int, size as int)
                    &&& b@.map_from == align_down(addr as int, b@.max_order as nat)
                    &&& map_to(b@) == align_up(addr as int + size as int, b@.max_order as nat)
                    &&& b@.allocated == Set::<Block>::empty()
                    &&& is_free(b@, b@.max_order, align_up(addr as int, b@.max_order as nat))
                    &&& (forall|k: int, x: int|
                        b@.min_order <= k <= b@.max_order && #[trigger] is_free(b@, k, x)
                            ==> align_up(addr as int, min_order as nat) <= x && x + pow2(k as nat)
                            <= align_down(addr as int + size as int, min_order as nat))
                    &&& (forall|x: int|
                        align_up(addr as int, min_order as nat) <= x < align_down(
                            addr as int + size as int,
                            min_order as nat,
                        ) ==> covered(b@, x))
                },
                Result::Err(e) => match e {
                    Error::MinOrderTooLow => pow2(min_order as nat) < 16,
                    Error::NotEnoughSpaceForBookkeeping => pow2(min_order as nat) >= 16
                        && init_too_small(min_order as int, addr as int, size as int),
                    _ => false,
                },
            }),
    {
        proof {
            vstd::arithmetic::power2::lemma2_to64();
        }
        // A free block must host a two-word (16-byte) intrusive list link.
        if min_order < 4 {
            proof {
                lemma_pow2_strictly_increases(min_order as nat, 4);
            }
            return Result::Err(Error::MinOrderTooLow);
        }
        proof {
            if min_order > 4 {
                lemma_pow2_strictly_increases(4, min_order as nat);
            }
        }
        let o0 = log2_floor(size);
        let f0 = align_addr_higher(addr, o0);
        let t0 = align_addr_lower(addr + size, o0);
        proof {
            lemma_align_up(addr as int, o0 as nat);
            lemma_align_down(addr as int + size as int, o0 as nat);
        }
        let mx: u8;
        if f0 != t0 {
            mx = o0;
        } else {
            proof {
                if o0 == 0 {
                    assert(pow2(0) == 1);
                    assert(f0 as int == addr as int);
                    assert(t0 as int == addr as int + size as int);
                    assert(false);
                }
            }
            mx = o0 - 1;
        }
        proof {
            assert(mx as int == top_order(addr as int, size as int));
            lemma_pow2_strictly_increases(mx as nat, o0 as nat + 1);
            if (mx as nat) < (o0 as nat) {
                lemma_pow2_strictly_increases(mx as nat, o0 as nat);
            }
            assert(pow2(mx as nat) <= size as int);
        }
        if mx < min_order {
            return Result::Err(Error::NotEnoughSpaceForBookkeeping);
        }
        let from = align_addr_higher(addr, mx);
        let to = align_addr_lower(addr + size, mx);
        let p_mx = pow2_exec(mx);
        proof {
            lemma_align_up(addr as int, mx as nat);
            lemma_align_down(addr as int + size as int, mx as nat);
            // `from <= to`, and they differ, so at least one block fits.
            lemma_from_below_to(addr as int, size as int, mx as nat, o0 as nat);
            assert(from < to);
            lemma_aligned_diff(from as int, to as int, p_mx as int);
            assert(from as int + p_mx <= to as int);
        }
        let map_from = align_addr_lower(addr, mx);
        let map_to_v = align_addr_higher(addr + size, mx);
        proof {
            lemma_align_down(addr as int, mx as nat);
            lemma_align_up(addr as int + size as int, mx as nat);
            lemma_aligned_diff(map_from as int, map_to_v as int, p_mx as int);
        }
        let mf = (map_to_v - map_from) / p_mx;
        proof {
            lemma_div_exact(map_to_v as int - map_from as int, p_mx as int);
            assert(mf as int * p_mx as int == map_to_v as int - map_from as int);
            assert(mf as int == init_map_factor(addr as int, size as int));
            assert(mf >= 1) by (nonlinear_arith)
                requires
                    mf as int * p_mx as int >= p_mx as int,
                    p_mx >= 1,
            ;
        }
        let norders_e = (mx - min_order) as usize + 1;
        let halfmf = mf / 2 + mf % 2;
        proof {
            lemma_fundamental_div_mod(mf as int, 2);
            lemma_total_bits_closed(mx as int, mf as int, min_order as int);
        }
        let nbits: usize;
        if min_order == mx {
            nbits = halfmf;
        } else {
            let d = mx - min_order;
            proof {
                if (d as nat) < (mx as nat) {
                    lemma_pow2_strictly_increases(d as nat, mx as nat);
                }
            }
            let e = pow2_exec(d);
            proof {
                // factor * 2^(mx - min) * 2^min == span, so the product fits.
                vstd::arithmetic::power2::lemma_pow2_adds(d as nat, min_order as nat);
                lemma_pow2_pos(min_order as nat);
                lemma_pow2_pos(d as nat);
                assert(mf as int * (e as int) <= map_to_v as int - map_from as int)
                    by (nonlinear_arith)
                    requires
                        mf as int * p_mx as int == map_to_v as int - map_from as int,
                        p_mx as int == e as int * pow2(min_order as nat),
                        pow2(min_order as nat) >= 1,
                        e >= 1,
                        mf >= 1,
                ;
                assert(halfmf as int + mf as int * (e as int - 1) <= mf as int * (e as int))
                    by (nonlinear_arith)
                    requires
                        halfmf as int <= mf as int,
                        e >= 1,
                        mf >= 1,
                ;
            }
            nbits = halfmf + mf * (e - 1);
        }
        proof {
            assert(nbits as int == order_offset(mx as int, mf as int, min_order as int)
                + order_pairs(mx as int, mf as int, min_order as int));
            assert(nbits >= 1);
        }
        let heads_bytes = norders_e * 8;
        let map_words = (nbits - 1) / 64 + 1;
        proof {
            lemma_words_fit(nbits as int);
        }
        let map_bytes = map_words * 8;
        let data_bytes = heads_bytes + map_bytes;
        proof {
            assert(data_bytes as int == bookkeeping_bytes(
                min_order as int,
                mx as int,
                mf as int,
            ));
        }
        if to - from < 16 + data_bytes {
            return Result::Err(Error::NotEnoughSpaceForBookkeeping);
        }
        // Build the empty bookkeeping.
        let mut free_lists: Vec<Vec<usize>> = Vec::new();
        let mut i: usize = 0;
        while i < norders_e
            invariant
                i <= norders_e,
                free_lists@.len() == i as int,
                forall|j: int| 0 <= j < i as int ==> free_lists@[j]@.len() == 0,
            decreases norders_e - i,
        {
            free_lists.push(Vec::new());
            i = i + 1;
        }
        let map: Vec<bool> = vec![false; nbits];
        let mut b = BuddyAlloc {
            min_order,
            max_order: mx,
            map_from_addr: map_from,
            map_factor: mf,
            free_lists,
            map,
            allocated: Ghost(Set::empty()),
        };
        proof {
            lemma_empty_state_wf(b@);
            assert(crate::model::wf(b@));
        }
        // Seed the free lists with every whole top-order block.
        let ghost m_names = b@;
        proof {
            assert(m_names.map_from == map_from as int);
            assert(map_to(m_names) == map_from as int + mf as int * pow2(mx as nat));
            assert(map_to(m_names) == map_to_v as int);
            assert forall|k: int, x: int|
                min_order as int <= k <= mx as int && #[trigger] is_free(m_names, k, x)
                    implies false by {
                assert(list_at(m_names, k).len() == 0);
                let ii = choose|ii: int|
                    0 <= ii < list_at(m_names, k).len() && list_at(m_names, k)[ii] == x;
            }
        }
        let mut t = from;
        while t < to
            invariant
                crate::model::wf(b@),
                b@ == (AllocModel { free: b@.free, bits: b@.bits, ..m_names }),
                m_names.min_order == min_order as int,
                m_names.max_order == mx as int,
                m_names.map_from == map_from as int,
                m_names.map_factor == mf as int,
                m_names.allocated == Set::<Block>::empty(),
                b.min_order == min_order && b.max_order == mx,
                p_mx as int == pow2(mx as nat),
                p_mx >= 1,
                map_from as int <= from as int <= t as int <= to as int,
                map_from as int <= addr as int,
                to as int <= map_to(b@),
                t as int % p_mx as int == 0,
                to as int % p_mx as int == 0,
                map_from as int % p_mx as int == 0,
                from as int + p_mx as int <= to as int,
                forall|k: int, x: int|
                    min_order as int <= k <= mx as int && #[trigger] is_free(b@, k, x)
                        ==> from as int <= x && x + pow2(k as nat) <= t as int,
                forall|x: int| from as int <= x < t as int ==> covered(b@, x),
                t as int > from as int ==> is_free(b@, mx as int, from as int),
            decreases to as int - t as int,
        {
            let ghost mp = b@;
            proof {
                lemma_aligned_diff(t as int, to as int, p_mx as int);
                lemma_sub_mod(t as int, map_from as int, p_mx as int);
                assert(block_ok(mp, mx as int, t as int));
                assert forall|k2: int, x: int|
                    mp.min_order <= k2 <= mp.max_order && #[trigger] is_free(mp, k2, x)
                        implies crate::model::blocks_disjoint(k2, x, mx as int, t as int) by {
                    lemma_pow2_pos(k2 as nat);
                }
                assert(hole_ok(mp, mx as int, t as int));
                lemma_release_stop(mp, mx as int, t as int);
            }
            b.add_free_block(mx, t);
            proof {
                lemma_membership_grows(mp, mx as int, t as int);
                lemma_covered_grows(mp, mx as int, t as int, from as int, t as int);
                vstd::arithmetic::div_mod::lemma_mod_multiples_vanish(1, t as int, p_mx as int);
            }
            t = t + p_mx;
        }
        // Reclaim the unaligned edges of the caller's region: walk the orders
        // downward and register every leftover fragment at the order that
        // exactly covers it.
        let mut j = mx;
        let mut cur_from = from;
        let mut cur_to = to;
        while j > min_order
            invariant
                crate::model::wf(b@),
                b@ == (AllocModel { free: b@.free, bits: b@.bits, ..m_names }),
                m_names.min_order == min_order as int,
                m_names.max_order == mx as int,
                m_names.map_from == map_from as int,
                m_names.map_factor == mf as int,
                m_names.allocated == Set::<Block>::empty(),
                b.min_order == min_order && b.max_order == mx,
                min_order as int <= j as int <= mx as int,
                mx < 64,
                cur_from as int == align_up(addr as int, j as nat),
                cur_to as int == align_down(addr as int + size as int, j as nat),
                map_from as int <= addr as int,
                map_from as int <= cur_from as int,
                (cur_from as int) < (cur_to as int),
                cur_to as int <= map_to(b@),
                addr as int + size as int <= map_to(b@),
                map_from as int % pow2(mx as nat) as int == 0,
                pow2(mx as nat) <= size as int,
                size >= 1 && addr + 2 * size - 1 <= usize::MAX,
                forall|k: int, x: int|
                    min_order as int <= k <= mx as int && #[trigger] is_free(b@, k, x)
                        ==> cur_from as int <= x && x + pow2(k as nat) <= cur_to as int,
                forall|x: int| cur_from as int <= x < cur_to as int ==> covered(b@, x),
                is_free(b@, mx as int, from as int),
            decreases j,
        {
            let jm = j - 1;
            proof {
                lemma_pow2_pos(jm as nat);
                lemma_pow2_pos(mx as nat);
                if (jm as nat) < (mx as nat) {
                    lemma_pow2_strictly_increases(jm as nat, mx as nat);
                }
                lemma_align_up_succ(addr as int, jm as nat);
                lemma_align_down_succ(addr as int + size as int, jm as nat);
                vstd::arithmetic::power2::lemma_pow2_adds(1, jm as nat);
                vstd::arithmetic::power2::lemma2_to64();
                lemma_pow2_mod_divides(map_from as int, (jm + 1) as nat, mx as nat);
            }
            let p_j = pow2_exec(jm);
            let f2 = align_addr_higher(addr, jm);
            proof {
                lemma_align_up(addr as int, jm as nat);
            }
            if f2 != cur_from {
                let ghost mp = b@;
                proof {
                    assert(cur_from as int == f2 as int + p_j as int);
                    assert(f2 as int % (2 * p_j as int) == p_j as int);
                    lemma_init_fragment_low(mp, jm as int, f2 as int, cur_from as int);
                    lemma_release_stop(mp, jm as int, f2 as int);
                }
                b.add_free_block(jm, f2);
                proof {
                    lemma_membership_grows(mp, jm as int, f2 as int);
                    lemma_covered_grows(mp, jm as int, f2 as int, cur_from as int, cur_to as int);
                }
                cur_from = f2;
            }
            let t2 = align_addr_lower(addr + size, jm);
            proof {
                lemma_align_down(addr as int + size as int, jm as nat);
            }
            if t2 != cur_to {
                let ghost mp = b@;
                proof {
                    assert(t2 as int == cur_to as int + p_j as int);
                    lemma_sub_mod(cur_to as int, map_from as int, (2 * p_j) as int);
                    assert(t2 as int <= addr as int + size as int);
                    lemma_init_fragment_high(mp, jm as int, cur_to as int, t2 as int);
                    lemma_release_stop(mp, jm as int, cur_to as int);
                }
                b.add_free_block(jm, cur_to);
                proof {
                    lemma_membership_grows(mp, jm as int, cur_to as int);
                    lemma_covered_grows(mp, jm as int, cur_to as int, cur_from as int, cur_to as int);
                }
                cur_to = t2;
            }
            j = jm;
        }
        Result::Ok(b)
    }

    /// Number of free blocks currently listed at `order`.
    pub fn free_list_len(&self, order: u8) -> (r: usize)
        requires
            wf_config(self@),
            self@.min_order <= order as int <= self@.max_order,
        ensures
            r == list_at(self@, order as int).len(),
    {
        let idx = (order - self.min_order) as usize;
        self.free_lists[idx].len()
    }

    /// The address of the `i`-th free block listed at `order`.
    pub fn free_list_entry(&self, order: u8, i: usize) -> (r: usize)
        requires
            wf_config(self@),
            self@.min_order <= order as int <= self@.max_order,
            i < list_at(self@, order as int).len(),
        ensures
            r as int == list_at(self@, order as int)[i as int],
    {
        let idx = (order - self.min_order) as usize;
        self.free_lists[idx][i]
    }

    /// The smallest tracked order.
    pub fn min_order(&self) -> (r: u8)
        ensures
            r as int == self@.min_order,
    {
        self.min_order
    }

    /// The largest tracked order.
    pub fn max_order(&self) -> (r: u8)
        ensures
            r as int == self@.max_order,
    {
        self.max_order
    }

    /// The base address of the bookkeeping span.
    pub fn map_from_addr(&self) -> (r: usize)
        ensures
            r as int == self@.map_from,
    {
        self.map_from_addr
    }

    /// Cumulative pair-slot count of all orders above `order`: where that
    /// order's pair bits begin in the flat bitmap.
    fn map_order_offset(&self, order: u8) -> (r: usize)
        requires
            wf_config(self@),
            self@.min_order <= order as int <= self@.max_order,
        ensures
            r as int == bit_offset(self@, order as int),
    {
        let ghost m = self@;
        proof {
            lemma_offset_closed(m.max_order, m.map_factor, order as int);
            lemma_offset_ordered(m, m.min_order, order as int);
            lemma_pairs_at_pos(m, m.min_order);
            assert(self.map@.len() == total_bits(m));
        }
        let cap = self.map.len();
        if order == self.max_order {
            0
        } else {
            let e = self.max_order - order - 1;
            proof {
                lemma_order_fits(m, (self.max_order - order - 1) as int);
                lemma_fundamental_div_mod(m.map_factor, 2);
            }
            let p = pow2_exec(e);
            let half = self.map_factor / 2 + self.map_factor % 2;
            proof {
                assert(half + m.map_factor * (p - 1) == bit_offset(m, order as int));
                assert(bit_offset(m, order as int) <= cap as int);
            }
            half + self.map_factor * (p - 1)
        }
    }

    /// The flat bitmap index of the buddy pair of `ptr` at `order`.
    fn map_index(&self, order: u8, ptr: usize) -> (r: usize)
        requires
            wf_config(self@),
            block_ok(self@, order as int, ptr as int),
        ensures
            r as int == slot(self@, order as int, ptr as int),
    {
        let ghost m = self@;
        proof {
            lemma_slot_ok(m, order as int, ptr as int);
            lemma_order_fits(m, order as int);
        }
        let cap = self.map.len();
        let off = self.map_order_offset(order);
        let p = pow2_exec(order);
        let d = ptr - self.map_from_addr;
        proof {
            lemma_pow2_pos(order as nat);
            lemma_div_denominator(d as int, p as int, 2);
            assert(d as int / (2 * pow2(order as nat)) as int == d as int / p as int / 2);
            assert(off + d as int / p as int / 2 == slot(m, order as int, ptr as int));
            assert(slot(m, order as int, ptr as int) < cap as int);
        }
        off + d / p / 2
    }

    /// Read the pair bit of `ptr` at `order`.
    fn map_bit(&self, order: u8, ptr: usize) -> (r: bool)
        requires
            wf_config(self@),
            block_ok(self@, order as int, ptr as int),
        ensures
            r == self@.bits[slot(self@, order as int, ptr as int)],
    {
        let i = self.map_index(order, ptr);
        proof {
            lemma_slot_ok(self@, order as int, ptr as int);
        }
        self.map[i]
    }

    /// Write the pair bit of `ptr` at `order`.
    fn set_map_bit(&mut self, order: u8, ptr: usize, value: bool)
        requires
            wf_config(old(self)@),
            block_ok(old(self)@, order as int, ptr as int),
        ensures
            final(self)@ == (AllocModel {
                bits: old(self)@.bits.update(
                    slot(old(self)@, order as int, ptr as int),
                    value,
                ),
                ..old(self)@
            }),
    {
        let i = self.map_index(order, ptr);
        proof {
            lemma_slot_ok(self@, order as int, ptr as int);
        }
        self.map[i] = value;
        proof {
            assert(final(self)@ =~~= AllocModel {
                bits: old(self)@.bits.update(
                    slot(old(self)@, order as int, ptr as int),
                    value,
                ),
                ..old(self)@
            });
        }
    }

    /// Link the block at `ptr` as the new head of `order`'s free list and
    /// flip its pair bit.
    fn add_free_block(&mut self, order: u8, ptr: usize)
        requires
            wf_config(old(self)@),
            block_ok(old(self)@, order as int, ptr as int),
        ensures
            final(self)@ == add_block(old(self)@, order as int, ptr as int),
    {
        let ghost m0 = self@;
        let idx = (order - self.min_order) as usize;
        let b = self.map_bit(order, ptr);
        self.free_lists[idx].push(ptr);
        proof {
            assert(self@.free =~~= push_free(m0, order as int, ptr as int).free);
            assert(self@ =~~= push_free(m0, order as int, ptr as int));
            assert(wf_config(self@));
            assert(block_ok(self@, order as int, ptr as int));
        }
        self.set_map_bit(order, ptr, !b);
        proof {
            assert(final(self)@ =~~= add_block(m0, order as int, ptr as int));
        }
    }

    /// Remove and return the head of `order`'s free list and flip its pair
    /// bit.
    fn pop_free_block(&mut self, order: u8) -> (r: usize)
        requires
            wf_config(old(self)@),
            crate::model::wf_blocks(old(self)@),
            self@.min_order <= order as int <= self@.max_order,
            list_at(old(self)@, order as int).len() > 0,
        ensures
            r as int == list_at(old(self)@, order as int).last(),
            final(self)@ == toggle_bit(
                pop_free(old(self)@, order as int),
                order as int,
                r as int,
            ),
    {
        let ghost m0 = self@;
        let idx = (order - self.min_order) as usize;
        let r = match self.free_lists[idx].pop() {
            Some(x) => x,
            None => {
                proof {
                    assert(false);
                }
                0
            },
        };
        proof {
            assert(r as int == list_at(m0, order as int).last());
            assert(self@.free =~~= pop_free(m0, order as int).free);
            assert(self@ =~~= pop_free(m0, order as int));
            assert(list_at(m0, order as int)[list_at(m0, order as int).len() - 1] == r as int);
            assert(is_free(m0, order as int, r as int));
            assert(block_ok(m0, order as int, r as int));
            assert(wf_config(self@));
            assert(block_ok(self@, order as int, r as int));
        }
        let b = self.map_bit(order, r);
        self.set_map_bit(order, r, !b);
        proof {
            assert(final(self)@ =~~= toggle_bit(
                pop_free(m0, order as int),
                order as int,
                r as int,
            ));
        }
        r
    }

    /// Unlink the block at `ptr` from the middle of `order`'s free list and
    /// flip its pair bit.
    fn remove_free_block(&mut self, order: u8, ptr: usize)
        requires
            wf_config(old(self)@),
            block_ok(old(self)@, order as int, ptr as int),
            is_free(old(self)@, order as int, ptr as int),
        ensures
            final(self)@ == toggle_bit(
                remove_free(old(self)@, order as int, ptr as int),
                order as int,
                ptr as int,
            ),
    {
        let ghost m0 = self@;
        let ghost l = list_at(m0, order as int);
        let idx = (order - self.min_order) as usize;
        let n = self.free_lists[idx].len();
        let mut j: usize = 0;
        proof {
            let w = choose|w: int| 0 <= w < l.len() && l[w] == ptr as int;
            assert(self.free_lists@[idx as int]@[w] == ptr);
        }
        while self.free_lists[idx][j] != ptr
            invariant
                0 <= j < n,
                n == self.free_lists@[idx as int]@.len(),
                idx < self.free_lists@.len(),
                exists|w: int| j <= w < n && self.free_lists@[idx as int]@[w] == ptr,
                forall|w: int| 0 <= w < j ==> self.free_lists@[idx as int]@[w] != ptr,
            decreases n - j,
        {
            proof {
                let w = choose|w: int|
                    j <= w < n && self.free_lists@[idx as int]@[w] == ptr;
                assert(w >= j + 1);
            }
            j = j + 1;
        }
        proof {
            l.index_of_first_ensures(ptr as int);
            assert(l[j as int] == ptr as int);
            assert(l.index_of_first(ptr as int) == Some(j as int));
        }
        let b = self.map_bit(order, ptr);
        self.free_lists[idx].remove(j);
        proof {
            assert(self@.free =~~= remove_free(m0, order as int, ptr as int).free);
            assert(self@ =~~= remove_free(m0, order as int, ptr as int));
            assert(wf_config(self@));
            assert(block_ok(self@, order as int, ptr as int));
        }
        self.set_map_bit(order, ptr, !b);
        proof {
            assert(final(self)@ =~~= toggle_bit(
                remove_free(m0, order as int, ptr as int),
                order as int,
                ptr as int,
            ));
        }
    }

    /// Allocate a block of exactly `order`: scan the free lists from `order`
    /// upward, take the first donor, and split it down to `order`, pushing
    /// the unused upper half at every level.
    ///
    /// Fails with `InvalidOrder` exactly when `order` is outside
    /// `[min_order, max_order]`, and with `OutOfMemory` exactly when no free
    /// block of order at least `order` exists.  On success the returned
    /// address is `order`-aligned and lies inside the managed span.
    pub fn allocate(&mut self, order: u8) -> (r: Result<usize, Error>)
        requires
            old(self).wf(),
        ensures
            final(self).wf(),
            final(self)@ == spec_alloc(old(self)@, order as int).0,
            (match r {
                Result::Ok(a) => spec_alloc(old(self)@, order as int).1 == Result::<
                    int,
                    Error,
                >::Ok(a as int),
                Result::Err(e) => spec_alloc(old(self)@, order as int).1 == Result::<
                    int,
                    Error,
                >::Err(e),
            }),
            (r matches Result::Ok(a) ==> block_ok(old(self)@, order as int, a as int)
                && final(self)@.allocated == old(self)@.allocated.insert(
                Block { order: order as int, addr: a as int },
            )),
            (r matches Result::Err(_) ==> final(self)@ == old(self)@),
    {
        let ghost m0 = self@;
        if order < self.min_order || order > self.max_order {
            return Result::Err(Error::InvalidOrder);
        }
        let mut k = order;
        while self.free_list_len(k) == 0
            invariant
                self@ == m0,
                crate::model::wf(m0),
                m0.min_order <= order as int <= k as int <= m0.max_order,
                find_free_order(m0, order as int) == find_free_order(m0, k as int),
                self.min_order == m0.min_order && self.max_order == m0.max_order,
            decreases m0.max_order - k as int,
        {
            if k == self.max_order {
                proof {
                    assert(find_free_order(m0, k as int + 1) == Option::<int>::None);
                    assert(find_free_order(m0, k as int) == Option::<int>::None);
                }
                return Result::Err(Error::OutOfMemory);
            }
            proof {
                assert(find_free_order(m0, k as int) == find_free_order(m0, k as int + 1));
            }
            k = k + 1;
        }
        proof {
            assert(list_at(m0, k as int).len() > 0);
            assert(find_free_order(m0, k as int) == Option::Some(k as int));
            lemma_take_donor(m0, k as int);
        }
        let a = self.pop_free_block(k);
        let ghost m1 = self@;
        proof {
            assert(m1 == toggle_bit(pop_free(m0, k as int), k as int, a as int));
        }
        let mut j = k;
        while j > order
            invariant
                order as int <= j as int <= k as int,
                crate::model::wf(self@),
                hole_ok(self@, j as int, a as int),
                split_blocks(m1, k as int, order as int, a as int) == split_blocks(
                    self@,
                    j as int,
                    order as int,
                    a as int,
                ),
                self@.allocated == m0.allocated,
                self@.min_order == m0.min_order && self@.max_order == m0.max_order,
                self@.map_from == m0.map_from && self@.map_factor == m0.map_factor,
                m0.min_order <= order as int,
                self.min_order == m0.min_order && self.max_order == m0.max_order,
            decreases j,
        {
            let ghost mp = self@;
            proof {
                lemma_split_push(mp, j as int, a as int);
                lemma_order_fits(mp, j as int - 1);
                lemma_pow2_pos((j - 1) as nat);
                lemma_pow2_pos(j as nat);
                lemma_pow2_strictly_increases((j - 1) as nat, j as nat);
            }
            let jm = j - 1;
            let p = pow2_exec(jm);
            let h = a + p;
            self.add_free_block(jm, h);
            proof {
                assert(self@ == add_block(mp, jm as int, h as int));
                assert(split_blocks(mp, j as int, order as int, a as int) == split_blocks(
                    self@,
                    jm as int,
                    order as int,
                    a as int,
                ));
            }
            j = jm;
        }
        proof {
            assert(split_blocks(self@, order as int, order as int, a as int) == self@);
            lemma_mark_hole(self@, order as int, a as int);
        }
        let ghost m2 = self@;
        self.allocated = Ghost(
            self.allocated@.insert(Block { order: order as int, addr: a as int }),
        );
        proof {
            assert(self@ =~~= mark_allocated(m2, order as int, a as int));
            assert(self@ == spec_alloc(m0, order as int).0);
        }
        Result::Ok(a)
    }

    /// Release the block of `order` at `addr`, which must have come from a
    /// matching `alloc` and not have been released since.  Ascends from
    /// `order`: while the pair bit shows the buddy is free (and the top order
    /// is not reached), the buddy is unlinked and the merged parent ascends;
    /// otherwise the block is parked on its free list.
    ///
    /// Fails with `InvalidOrder` exactly when `order` is outside
    /// `[min_order, max_order]`.
    pub fn free(&mut self, order: u8, addr: usize) -> (r: Result<(), Error>)
        requires
            old(self).wf(),
            old(self)@.min_order <= order as int <= old(self)@.max_order ==> old(
                self,
            )@.allocated.contains(Block { order: order as int, addr: addr as int }),
        ensures
            final(self).wf(),
            final(self)@ == spec_free(old(self)@, order as int, addr as int).0,
            (match r {
                Result::Ok(u) => spec_free(old(self)@, order as int, addr as int).1
                    == Result::<(), Error>::Ok(u),
                Result::Err(e) => spec_free(old(self)@, order as int, addr as int).1 == Result::<
                    (),
                    Error,
                >::Err(e) && final(self)@ == old(self)@,
            }),
    {
        let ghost m0 = self@;
        if order < self.min_order || order > self.max_order {
            return Result::Err(Error::InvalidOrder);
        }
        proof {
            lemma_unmark_hole(m0, order as int, addr as int);
        }
        let ghost mu = unmark_allocated(m0, order as int, addr as int);
        self.allocated = Ghost(
            self.allocated@.remove(Block { order: order as int, addr: addr as int }),
        );
        proof {
            assert(self@ =~~= mu);
        }
        let mut k = order;
        let mut a = addr;
        loop
            invariant
                crate::model::wf(self@),
                hole_ok(self@, k as int, a as int),
                self@.min_order <= order as int <= k as int <= self@.max_order,
                spec_coalesce(mu, order as int, addr as int) == spec_coalesce(
                    self@,
                    k as int,
                    a as int,
                ),
                self@.allocated == mu.allocated,
                self@.min_order == mu.min_order && self@.max_order == mu.max_order,
                self@.map_from == mu.map_from && self@.map_factor == mu.map_factor,
                self.min_order == mu.min_order && self.max_order == mu.max_order,
                m0 == old(self)@,
                mu == unmark_allocated(m0, order as int, addr as int),
                m0.min_order <= order as int <= m0.max_order,
            decreases self@.max_order - k as int,
        {
            let bit = self.map_bit(k, a);
            if !bit || k == self.max_order {
                proof {
                    lemma_release_stop(self@, k as int, a as int);
                    assert(spec_coalesce(self@, k as int, a as int) == add_block(
                        self@,
                        k as int,
                        a as int,
                    ));
                }
                let ghost mp = self@;
                self.add_free_block(k, a);
                proof {
                    assert(self@ == add_block(mp, k as int, a as int));
                    assert(spec_coalesce(mu, order as int, addr as int) == spec_coalesce(
                        mp,
                        k as int,
                        a as int,
                    ));
                    assert(spec_free(m0, order as int, addr as int).0 == spec_coalesce(
                        mu,
                        order as int,
                        addr as int,
                    ));
                    assert(self@ == spec_free(m0, order as int, addr as int).0);
                }
                return Result::Ok(());
            }
            let ghost mp = self@;
            proof {
                lemma_release_merge(mp, k as int, a as int);
                lemma_order_fits(mp, k as int);
                lemma_pair_of_block(mp, k as int, a as int);
                lemma_pow2_pos(k as nat);
            }
            let p = pow2_exec(k);
            let d = a - self.map_from_addr;
            let q = d / p;
            let bd = if q % 2 == 0 { a + p } else { a - p };
            proof {
                assert(bd as int == buddy(mp, k as int, a as int));
                assert(block_ok(mp, k as int, bd as int));
            }
            self.remove_free_block(k, bd);
            proof {
                let mr = toggle_bit(remove_free(mp, k as int, bd as int), k as int, bd as int);
                let ms = toggle_bit(remove_free(mp, k as int, bd as int), k as int, a as int);
                assert(slot(remove_free(mp, k as int, bd as int), k as int, bd as int) == slot(
                    remove_free(mp, k as int, bd as int),
                    k as int,
                    a as int,
                ));
                assert(mr =~~= ms);
                assert(self@ == ms);
            }
            let na = if a < bd {
                a
            } else {
                bd
            };
            proof {
                assert(spec_coalesce(mp, k as int, a as int) == spec_coalesce(
                    self@,
                    k as int + 1,
                    na as int,
                ));
            }
            a = na;
            k = k + 1;
        }
    }
}

/// The difference of two multiples of `p` is a multiple of `p`.
proof fn lemma_sub_mod(x: int, y: int, p: int)
    requires
        p >= 1,
        x % p == 0,
        y % p == 0,
    ensures
        (x - y) % p == 0,
{
    lemma_fundamental_div_mod(x, p);
    lemma_fundamental_div_mod(y, p);
    assert(x - y == (x / p - y / p) * p) by (nonlinear_arith)
        requires
            x == p * (x / p),
            y == p * (y / p),
    ;
    vstd::arithmetic::div_mod::lemma_fundamental_div_mod_converse(x - y, p, x / p - y / p, 0);
}

/// Two distinct multiples of `p` differ by at least `p`, and their difference
/// is a multiple of `p`.
proof fn lemma_aligned_diff(x: int, y: int, p: int)
    requires
        p >= 1,
        x % p == 0,
        y % p == 0,
        x < y,
    ensures
        x + p <= y,
        (y - x) % p == 0,
{
    lemma_fundamental_div_mod(x, p);
    lemma_fundamental_div_mod(y, p);
    let qx = x / p;
    let qy = y / p;
    assert(x + p <= y) by (nonlinear_arith)
        requires
            x == p * qx,
            y == p * qy,
            x < y,
            p >= 1,
    ;
    assert(y - x == (qy - qx) * p) by (nonlinear_arith)
        requires
            x == p * qx,
            y == p * qy,
    ;
    vstd::arithmetic::div_mod::lemma_fundamental_div_mod_converse(y - x, p, qy - qx, 0);
}

/// Division by `p` is exact on multiples of `p`.
proof fn lemma_div_exact(x: int, p: int)
    requires
        p >= 1,
        x >= 0,
        x % p == 0,
    ensures
        (x / p) * p == x,
        x / p >= 0,
{
    lemma_fundamental_div_mod(x, p);
    assert(x == p * (x / p));
    assert((x / p) * p == x) by (nonlinear_arith)
        requires
            x == p * (x / p),
    ;
    if x / p < 0 {
        assert(p * (x / p) <= -p) by (nonlinear_arith)
            requires
                p >= 1,
                x / p <= -1,
        ;
    }
}

/// A multiple of `p` that is at most `x` is at most `align_down(x, k)`.
proof fn lemma_align_down_ge(x: int, k: nat, y: int)
    requires
        x >= 0,
        0 <= y <= x,
        y % pow2(k) as int == 0,
    ensures
        y <= align_down(x, k),
{
    let p = pow2(k) as int;
    lemma_pow2_pos(k);
    lemma_fundamental_div_mod(y, p);
    vstd::arithmetic::div_mod::lemma_div_is_ordered(y, x, p);
    assert((y / p) * p <= (x / p) * p) by (nonlinear_arith)
        requires
            y / p <= x / p,
            p >= 1,
    ;
}

/// Between the candidate top order and one below it, the region always keeps
/// a whole aligned block.
proof fn lemma_from_below_to(addr: int, size: int, mx: nat, o0: nat)
    requires
        addr >= 0,
        size >= 1,
        pow2(o0) <= size,
        mx <= o0,
        (mx == o0 && align_up(addr, mx) != align_down(addr + size, mx)) || mx as int == o0 - 1,
    ensures
        align_up(addr, mx) < align_down(addr + size, mx),
{
    let p = pow2(mx) as int;
    let f = align_up(addr, mx);
    let t = align_down(addr + size, mx);
    lemma_pow2_pos(mx);
    lemma_align_up(addr, mx);
    lemma_align_down(addr + size, mx);
    if mx == o0 {
        assert(f < addr + p <= addr + size);
        lemma_align_down_ge(addr + size, mx, f);
    } else {
        assert(pow2(o0) == 2 * pow2(mx)) by {
            vstd::arithmetic::power2::lemma_pow2_adds(1, mx);
            vstd::arithmetic::power2::lemma2_to64();
        }
        assert(t - f > size - 2 * p);
    }
}

/// The packed bitmap byte count stays far from the address-space limit.
proof fn lemma_words_fit(nbits: int)
    requires
        1 <= nbits <= usize::MAX,
    ensures
        1 <= (nbits - 1) / 64 + 1,
        ((nbits - 1) / 64 + 1) * 8 + 544 <= usize::MAX,
{
    let x = nbits - 1;
    let q = x / 64;
    lemma_div_denominator(x, 8, 8);
    lemma_fundamental_div_mod(x, 64);
    lemma_fundamental_div_mod(x / 8, 8);
    lemma_fundamental_div_mod(x, 8);
    assert(q >= 0) by (nonlinear_arith)
        requires
            x == 64 * q + x % 64,
            0 <= x % 64 < 64,
            x >= 0,
    ;
    assert(q * 8 <= x / 8) by (nonlinear_arith)
        requires
            q == (x / 8) / 8,
            x / 8 == 8 * ((x / 8) / 8) + (x / 8) % 8,
            0 <= (x / 8) % 8,
    ;
    assert(8 * (x / 8) <= x) by {
        lemma_fundamental_div_mod(x, 8);
    }
    assert(x / 8 + 552 <= usize::MAX) by (nonlinear_arith)
        requires
            x == 8 * (x / 8) + x % 8,
            0 <= x % 8,
            x <= usize::MAX - 1,
            usize::MAX >= 0xffff_ffff,
    ;
}

/// Linking one more block grows the free lists by exactly that block.
proof fn lemma_membership_grows(m: AllocModel, k: int, a: int)
    requires
        wf_config(m),
        m.min_order <= k <= m.max_order,
    ensures
        ({
            let m1 = add_block(m, k, a);
            &&& forall|k2: int, x: int|
                m.min_order <= k2 <= m.max_order && #[trigger] is_free(m, k2, x) ==> is_free(
                    m1,
                    k2,
                    x,
                )
            &&& forall|k2: int, x: int|
                m.min_order <= k2 <= m.max_order && #[trigger] is_free(m1, k2, x) ==> (is_free(
                    m,
                    k2,
                    x,
                ) || (k2 == k && x == a))
            &&& is_free(m1, k, a)
            &&& m1.allocated == m.allocated
            &&& m1.min_order == m.min_order && m1.max_order == m.max_order
            &&& m1.map_from == m.map_from && m1.map_factor == m.map_factor
            &&& m1.free.len() == m.free.len()
        }),
{
    let m1 = add_block(m, k, a);
    crate::invariants::lemma_push_membership(list_at(m, k), a);
    assert(list_at(m1, k) == list_at(m, k).push(a));
    assert forall|k2: int|
        m.min_order <= k2 <= m.max_order && k2 != k implies list_at(m1, k2) == list_at(
        m,
        k2,
    ) by {}
    assert(list_at(m, k).push(a).contains(a));
}

/// Linking one more block keeps every covered address covered, and covers
/// the new block's own range.
proof fn lemma_covered_grows(m: AllocModel, k: int, a: int, lo: int, hi: int)
    requires
        wf_config(m),
        m.min_order <= k <= m.max_order,
        forall|x: int| lo <= x < hi ==> covered(m, x),
    ensures
        forall|x: int| lo <= x < hi ==> covered(add_block(m, k, a), x),
        forall|x: int| a <= x < a + pow2(k as nat) ==> covered(add_block(m, k, a), x),
{
    lemma_membership_grows(m, k, a);
    let m1 = add_block(m, k, a);
    assert forall|x: int| lo <= x < hi implies covered(m1, x) by {
        assert(covered(m, x));
        let (k2, a2) = choose|k2: int, a2: int|
            m.min_order <= k2 <= m.max_order && #[trigger] is_free(m, k2, a2) && a2 <= x < a2
                + pow2(k2 as nat);
        assert(is_free(m1, k2, a2));
        assert(m1.min_order <= k2 <= m1.max_order && a2 <= x < a2 + pow2(k2 as nat));
    }
    assert forall|x: int| a <= x < a + pow2(k as nat) implies covered(m1, x) by {
        assert(is_free(m1, k, a));
    }
}

/// An all-empty, all-zero state is well formed.
proof fn lemma_empty_state_wf(m: AllocModel)
    requires
        wf_config(m),
        forall|i: int| 0 <= i < m.free.len() ==> (#[trigger] m.free[i]).len() == 0,
        forall|i: int| 0 <= i < m.bits.len() ==> !(#[trigger] m.bits[i]),
        m.allocated == Set::<Block>::empty(),
    ensures
        crate::model::wf(m),
{
    assert forall|k: int, a: int|
        m.min_order <= k <= m.max_order && #[trigger] is_free(m, k, a) implies false by {
        assert(list_at(m, k).len() == 0);
        let i = choose|i: int| 0 <= i < list_at(m, k).len() && list_at(m, k)[i] == a;
    }
    assert forall|k: int| m.min_order <= k <= m.max_order implies (#[trigger] list_at(
        m,
        k,
    )).no_duplicates() by {
        assert(list_at(m, k).len() == 0);
    }
    assert forall|k: int, p: int|
        m.min_order <= k <= m.max_order && 0 <= p < pairs_at(m, k) implies #[trigger] crate::model::xor_ok(
        m,
        k,
        p,
    ) by {
        crate::invariants::lemma_slot_range(m, k);
        assert(!m.bits[bit_offset(m, k) + p]);
        assert(!is_free(m, k, crate::model::pair_low(m, k, p)));
        assert(!is_free(m, k, crate::model::pair_low(m, k, p) + pow2(k as nat)));
    }
    assert forall|k: int, p: int|
        m.min_order <= k < m.max_order && 0 <= p < pairs_at(m, k) implies #[trigger] crate::model::pair_not_split(
        m,
        k,
        p,
    ) by {
        assert(!is_free(m, k, crate::model::pair_low(m, k, p)));
    }
}

/// A low-edge fragment is a valid, overlap-free block whose pair bit is
/// still clear.
proof fn lemma_init_fragment_low(m: AllocModel, jm: int, f2: int, bound: int)
    requires
        crate::model::wf(m),
        m.allocated == Set::<Block>::empty(),
        m.min_order <= jm < m.max_order,
        m.map_from <= f2,
        bound == f2 + pow2(jm as nat),
        bound <= map_to(m),
        f2 % (2 * pow2(jm as nat) as int) == pow2(jm as nat),
        m.map_from % (2 * pow2(jm as nat) as int) == 0,
        forall|k2: int, x: int|
            m.min_order <= k2 <= m.max_order && #[trigger] is_free(m, k2, x) ==> bound <= x,
    ensures
        block_ok(m, jm, f2),
        hole_ok(m, jm, f2),
        !m.bits[slot(m, jm, f2)],
{
    let pj = pow2(jm as nat) as int;
    lemma_pow2_pos(jm as nat);
    lemma_fundamental_div_mod(f2, 2 * pj);
    let c = f2 / (2 * pj);
    assert(m.map_from == (2 * pj) * (m.map_from / (2 * pj))) by {
        lemma_fundamental_div_mod(m.map_from, 2 * pj);
    }
    let e = 2 * c - m.map_from / (2 * pj) * 2 + 1;
    assert(f2 - m.map_from == e * pj) by (nonlinear_arith)
        requires
            f2 == (2 * pj) * c + pj,
            m.map_from == (2 * pj) * (m.map_from / (2 * pj)),
            e == 2 * c - m.map_from / (2 * pj) * 2 + 1,
    ;
    assert(e >= 0) by (nonlinear_arith)
        requires
            f2 - m.map_from == e * pj,
            f2 >= m.map_from,
            pj >= 1,
    ;
    vstd::arithmetic::div_mod::lemma_fundamental_div_mod_converse(f2 - m.map_from, pj, e, 0);
    assert(block_ok(m, jm, f2));
    assert forall|k2: int, x: int|
        m.min_order <= k2 <= m.max_order && #[trigger] is_free(m, k2, x)
            implies crate::model::blocks_disjoint(k2, x, jm, f2) by {}
    assert(hole_ok(m, jm, f2));
    lemma_pair_of_block(m, jm, f2);
    let q = (f2 - m.map_from) / pj;
    assert(q == e);
    assert(q % 2 == 1) by {
        vstd::arithmetic::div_mod::lemma_fundamental_div_mod_converse(
            e,
            2,
            c - m.map_from / (2 * pj),
            1,
        );
    }
    let p0 = pair_of(m, jm, f2);
    let lo = crate::model::pair_low(m, jm, p0);
    assert(lo == f2 - pj);
    crate::invariants::lemma_slot_ok(m, jm, f2);
    assert(crate::model::xor_ok(m, jm, p0));
    assert(!is_free(m, jm, lo));
    assert(!is_free(m, jm, lo + pj));
}

/// A high-edge fragment is a valid, overlap-free block whose pair bit is
/// still clear.
proof fn lemma_init_fragment_high(m: AllocModel, jm: int, base: int, t2: int)
    requires
        crate::model::wf(m),
        m.allocated == Set::<Block>::empty(),
        m.min_order <= jm < m.max_order,
        m.map_from <= base,
        t2 == base + pow2(jm as nat),
        t2 <= map_to(m),
        (base - m.map_from) % (2 * pow2(jm as nat) as int) == 0,
        forall|k2: int, x: int|
            m.min_order <= k2 <= m.max_order && #[trigger] is_free(m, k2, x) ==> x + pow2(
                k2 as nat,
            ) <= base,
    ensures
        block_ok(m, jm, base),
        hole_ok(m, jm, base),
        !m.bits[slot(m, jm, base)],
{
    let pj = pow2(jm as nat) as int;
    lemma_pow2_pos(jm as nat);
    lemma_fundamental_div_mod(base - m.map_from, 2 * pj);
    let c = (base - m.map_from) / (2 * pj);
    assert(base - m.map_from == (2 * c) * pj) by (nonlinear_arith)
        requires
            base - m.map_from == (2 * pj) * c,
    ;
    assert(c >= 0) by (nonlinear_arith)
        requires
            base - m.map_from == (2 * pj) * c,
            base >= m.map_from,
            pj >= 1,
    ;
    vstd::arithmetic::div_mod::lemma_fundamental_div_mod_converse(base - m.map_from, pj, 2 * c, 0);
    assert(block_ok(m, jm, base));
    assert forall|k2: int, x: int|
        m.min_order <= k2 <= m.max_order && #[trigger] is_free(m, k2, x)
            implies crate::model::blocks_disjoint(k2, x, jm, base) by {}
    assert(hole_ok(m, jm, base));
    lemma_pair_of_block(m, jm, base);
    let q = (base - m.map_from) / pj;
    assert(q == 2 * c);
    assert(q % 2 == 0) by {
        vstd::arithmetic::div_mod::lemma_fundamental_div_mod_converse(2 * c, 2, c, 0);
    }
    let p0 = pair_of(m, jm, base);
    let lo = crate::model::pair_low(m, jm, p0);
    assert(lo == base);
    crate::invariants::lemma_slot_ok(m, jm, base);
    assert(crate::model::xor_ok(m, jm, p0));
    assert(!is_free(m, jm, base)) by {
        if is_free(m, jm, base) {
            lemma_pow2_pos(jm as nat);
        }
    }
    assert(!is_free(m, jm, base + pj)) by {
        if is_free(m, jm, base + pj) {
            lemma_pow2_pos(jm as nat);
        }
    }
}

/// Closed form of the cumulative pair-slot count below the top order.
pub proof fn lemma_offset_closed(max: int, factor: int, k: int)
    requires
        0 <= k <= max,
        factor >= 1,
    ensures
        k == max ==> order_offset(max, factor, k) == 0,
        k < max ==> order_offset(max, factor, k) == (factor + 1) / 2 + factor * (pow2(
            (max - k - 1) as nat,
        ) - 1),
    decreases max - k,
{
    if k < max {
        lemma_offset_closed(max, factor, k + 1);
        assert(order_offset(max, factor, k) == order_offset(max, factor, k + 1) + order_pairs(
            max,
            factor,
            k + 1,
        ));
        if k + 1 == max {
            assert(pow2(0) == 1) by {
                vstd::arithmetic::power2::lemma2_to64();
            }
            assert(order_offset(max, factor, k + 1) == 0);
            assert(order_pairs(max, factor, k + 1) == (factor + 1) / 2);
            assert(factor * (pow2(0) - 1) == 0) by (nonlinear_arith)
                requires
                    pow2(0) == 1,
            ;
        } else {
            let e = pow2((max - k - 2) as nat) as int;
            assert(pow2((max - k - 1) as nat) == 2 * e) by {
                vstd::arithmetic::power2::lemma_pow2_adds(1, (max - k - 2) as nat);
                vstd::arithmetic::power2::lemma2_to64();
            }
            assert(order_offset(max, factor, k + 1) == (factor + 1) / 2 + factor * (e - 1));
            assert(order_pairs(max, factor, k + 1) == factor * e);
            assert(factor * (e - 1) + factor * e == factor * (2 * e - 1)) by (nonlinear_arith);
            assert(order_offset(max, factor, k) == (factor + 1) / 2 + factor * (2 * e - 1));
        }
    }
}

/// Closed form of the whole bitmap length.
pub proof fn lemma_total_bits_closed(max: int, factor: int, min: int)
    requires
        0 <= min <= max,
        factor >= 1,
    ensures
        min == max ==> order_offset(max, factor, min) + order_pairs(max, factor, min) == (factor
            + 1) / 2,
        min < max ==> order_offset(max, factor, min) + order_pairs(max, factor, min) == (factor
            + 1) / 2 + factor * (pow2((max - min) as nat) - 1),
{
    lemma_offset_closed(max, factor, min);
    if min < max {
        let e = pow2((max - min - 1) as nat) as int;
        assert(pow2((max - min) as nat) == 2 * e) by {
            vstd::arithmetic::power2::lemma_pow2_adds(1, (max - min - 1) as nat);
            vstd::arithmetic::power2::lemma2_to64();
        }
        assert(order_pairs(max, factor, min) == factor * e);
        assert(factor * (e - 1) + factor * e == factor * (2 * e - 1)) by (nonlinear_arith);
    }
}

} // verus!
