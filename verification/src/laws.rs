//! Laws of the allocator relating several operations: allocation followed by
//! release restores the state exactly, outstanding allocations never overlap,
//! and allocating the minimum order drains the free space in exact steps.

use vstd::prelude::*;

verus! {

use crate::common::Error;
use crate::invariants::lemma_pair_of_block;
use crate::invariants::lemma_slot_ok;
use crate::invariants::lemma_split_push;
use crate::invariants::lemma_take_donor;
use crate::model::AllocModel;
use crate::model::Block;
use crate::model::add_block;
use crate::model::block_ok;
use crate::model::blocks_disjoint;
use crate::model::buddy;
use crate::model::find_free_order;
use crate::model::free_bytes;
use crate::model::free_bytes_upto;
use crate::model::hole_ok;
use crate::model::is_free;
use crate::model::list_at;
use crate::model::mark_allocated;
use crate::model::pair_not_split;
use crate::model::pair_of;
use crate::model::pop_free;
use crate::model::push_free;
use crate::model::remove_free;
use crate::model::slot;
use crate::model::spec_alloc;
use crate::model::spec_coalesce;
use crate::model::spec_free;
use crate::model::split_blocks;
use crate::model::toggle_bit;
use crate::model::unmark_allocated;
use crate::model::wf;
use crate::model::wf_config;
use crate::model::bit_offset;
use crate::model::pairs_at;
use crate::model::with_list;
use crate::model::xor_ok;
use vstd::arithmetic::power2::lemma_pow2_adds;
use vstd::arithmetic::power2::lemma_pow2_pos;
use vstd::arithmetic::power2::pow2;

/// No two outstanding allocations ever overlap: in every well-formed state,
/// distinct allocated blocks occupy disjoint address ranges, and every
/// allocated block is aligned to its order inside the managed span.
pub proof fn lemma_allocated_blocks_disjoint(m: AllocModel, b1: Block, b2: Block)
    requires
        wf(m),
        m.allocated.contains(b1),
        m.allocated.contains(b2),
        b1 != b2,
    ensures
        blocks_disjoint(b1.order, b1.addr, b2.order, b2.addr),
        block_ok(m, b1.order, b1.addr),
{
}

/// What a successful search means: the found order is the first non-empty
/// one at or above the request.
proof fn lemma_find_props(m: AllocModel, o: int)
    requires
        find_free_order(m, o) is Some,
    ensures
        ({
            let k = find_free_order(m, o).unwrap();
            &&& o <= k <= m.max_order
            &&& list_at(m, k).len() > 0
        }),
    decreases m.max_order + 1 - o,
{
    if o <= m.max_order && list_at(m, o).len() == 0 {
        lemma_find_props(m, o + 1);
    }
}

/// Unlinking a value just pushed restores the original list.
proof fn lemma_remove_pushed(l: Seq<int>, v: int)
    requires
        !l.contains(v),
    ensures
        l.push(v).remove_value(v) == l,
{
    let lp = l.push(v);
    lp.index_of_first_ensures(v);
    assert(lp[l.len() as int] == v);
    assert(lp.contains(v));
    let i = lp.index_of_first(v).unwrap();
    assert(i == l.len()) by {
        if i < l.len() {
            assert(l[i] == lp[i]);
        }
    }
    assert(lp.remove(l.len() as int) =~= l);
}

/// Coalescing ascends back through exactly the splits that allocation made:
/// releasing the retained lower half at `o` undoes every split down from `k`.
proof fn lemma_coalesce_unsplits(ms: AllocModel, k: int, o: int, a: int)
    requires
        wf(ms),
        hole_ok(ms, k, a),
        ms.min_order <= o <= k <= ms.max_order,
    ensures
        spec_coalesce(split_blocks(ms, k, o, a), o, a) == spec_coalesce(ms, k, a),
    decreases k - o,
{
    if k > o {
        let pk1 = pow2((k - 1) as nat) as int;
        let h = a + pk1;
        lemma_split_push(ms, k, a);
        let ms1 = add_block(ms, k - 1, h);
        lemma_coalesce_unsplits(ms1, k - 1, o, a);
        // In `ms` neither half is free, so the pair bit at `k - 1` was clear,
        // and the push set it: release at `k - 1` merges with the pushed half.
        lemma_slot_ok(ms, k - 1, h);
        lemma_slot_ok(ms, k - 1, a);
        lemma_pair_of_block(ms, k, a);
        lemma_pair_of_block(ms, k - 1, a);
        lemma_pair_of_block(ms, k - 1, h);
        let p0 = pair_of(ms, k - 1, a);
        let d = a - ms.map_from;
        let qk = d / pow2(k as nat) as int;
        assert(pow2(k as nat) == 2 * pk1) by {
            lemma_pow2_adds((k - 1) as nat, 1);
            vstd::arithmetic::power2::lemma2_to64();
        }
        assert(d == (2 * qk) * pk1) by (nonlinear_arith)
            requires
                d == qk * pow2(k as nat),
                pow2(k as nat) == 2 * pk1,
        ;
        lemma_pow2_pos((k - 1) as nat);
        lemma_pow2_pos(k as nat);
        vstd::arithmetic::div_mod::lemma_fundamental_div_mod_converse(d, pk1, 2 * qk, 0);
        vstd::arithmetic::div_mod::lemma_fundamental_div_mod_converse(2 * qk, 2, qk, 0);
        assert((d / pk1) % 2 == 0);
        assert(crate::model::pair_low(ms, k - 1, p0) == a);
        assert(buddy(ms, k - 1, a) == h);
        crate::invariants::lemma_pair_members(ms, k - 1, p0);
        assert(pair_of(ms, k - 1, h) == p0);
        assert(!is_free(ms, k - 1, a)) by {
            if is_free(ms, k - 1, a) {
                assert(blocks_disjoint(k - 1, a, k, a));
            }
        }
        assert(!is_free(ms, k - 1, h));
        assert(!ms.bits[slot(ms, k - 1, a)]) by {
            assert(xor_ok(ms, k - 1, p0));
        }
        assert(slot(ms, k - 1, h) == slot(ms, k - 1, a));
        // One unfolding of the coalescing ascent from `k - 1` in `ms1`.
        assert(ms1.bits[slot(ms1, k - 1, a)]) by {
            assert(slot(ms1, k - 1, a) == slot(ms, k - 1, a));
        }
        assert(k - 1 < ms.max_order || k - 1 == ms.max_order);
        assert(k - 1 < ms1.max_order);
        assert(buddy(ms1, k - 1, a) == h) by {
            assert(buddy(ms, k - 1, a) == a + pk1);
        }
        let mr = toggle_bit(remove_free(ms1, k - 1, h), k - 1, a);
        assert(mr == ms) by {
            assert(list_at(ms1, k - 1) == list_at(ms, k - 1).push(h));
            lemma_remove_pushed(list_at(ms, k - 1), h);
            assert(list_at(ms1, k - 1).remove_value(h) == list_at(ms, k - 1));
            assert(mr.free =~~= ms.free);
            assert(mr.bits =~= ms.bits);
            assert(mr =~~= ms);
        }
        assert(spec_coalesce(ms1, k - 1, a) == spec_coalesce(ms, k, a));
        assert(split_blocks(ms, k, o, a) == split_blocks(ms1, k - 1, o, a));
    }
}

/// Split/merge symmetry: a successful `allocate(order)` followed immediately
/// by `free(order, addr)` on the returned address restores the free lists,
/// the pair bitmap and the allocated set exactly, from any well-formed state.
pub proof fn lemma_allocate_free_roundtrip(m: AllocModel, o: int)
    requires
        wf(m),
        spec_alloc(m, o).1 is Ok,
    ensures
        spec_free(spec_alloc(m, o).0, o, spec_alloc(m, o).1.unwrap()).0 == m,
        spec_free(spec_alloc(m, o).0, o, spec_alloc(m, o).1.unwrap()).1 == Result::<
            (),
            Error,
        >::Ok(()),
{
    let k = find_free_order(m, o).unwrap();
    lemma_find_props(m, o);
    let a = list_at(m, k).last();
    lemma_take_donor(m, k);
    let m1 = toggle_bit(pop_free(m, k), k, a);
    let m2 = split_blocks(m1, k, o, a);
    let mm = mark_allocated(m2, o, a);
    assert(spec_alloc(m, o).0 == mm && spec_alloc(m, o).1 == Result::<int, Error>::Ok(a));
    // Releasing first forgets the allocation mark, which restores `m2`.
    let hb = Block { order: o, addr: a };
    assert(!m2.allocated.contains(hb)) by {
        assert(m1.allocated == m.allocated);
        lemma_split_allocated_unchanged(m1, k, o, a);
        if m.allocated.contains(hb) {
            lemma_pow2_pos(k as nat);
            lemma_pow2_pos(o as nat);
            assert(is_free(m, k, a));
            assert(blocks_disjoint(k, a, o, a));
        }
    }
    assert(unmark_allocated(mm, o, a) == m2) by {
        assert(mm.allocated.remove(hb) =~= m2.allocated);
        assert(unmark_allocated(mm, o, a) =~~= m2);
    }
    assert(m.min_order <= o <= m.max_order);
    lemma_split_allocated_unchanged(m1, k, o, a);
    assert(mm.min_order == m.min_order && mm.max_order == m.max_order);
    assert(spec_free(mm, o, a).0 == spec_coalesce(m2, o, a));
    assert(spec_free(mm, o, a).1 == Result::<(), Error>::Ok(()));
    lemma_coalesce_unsplits(m1, k, o, a);
    assert(spec_coalesce(m2, o, a) == spec_coalesce(m1, k, a));
    // The ascent stops at once at `k`: the donor's own pair bit is clear
    // again unless the top order is reached, and either way the donor is
    // pushed back where it was popped from.
    lemma_slot_ok(m, k, a);
    lemma_pair_of_block(m, k, a);
    let p0 = pair_of(m, k, a);
    assert(slot(m1, k, a) == slot(m, k, a));
    if k < m.max_order {
        assert(!m1.bits[slot(m1, k, a)]) by {
            assert(xor_ok(m, k, p0));
            assert(pair_not_split(m, k, p0));
            assert(is_free(m, k, a)) by {
                assert(list_at(m, k)[list_at(m, k).len() - 1] == a);
            }
        }
    }
    assert(spec_coalesce(m1, k, a) == add_block(m1, k, a));
    assert(add_block(m1, k, a) == m) by {
        assert(list_at(m, k).no_duplicates());
        assert(list_at(m1, k) == list_at(m, k).drop_last());
        assert(list_at(m, k).drop_last().push(list_at(m, k).last()) =~= list_at(m, k));
        assert(add_block(m1, k, a).free =~~= m.free);
        assert(add_block(m1, k, a).bits =~= m.bits);
        assert(add_block(m1, k, a) =~~= m);
    }
}

/// Splitting never touches the allocated set or the configuration.
proof fn lemma_split_allocated_unchanged(m: AllocModel, k: int, o: int, a: int)
    requires
        m.min_order <= o,
        k - m.min_order <= m.free.len(),
    ensures
        split_blocks(m, k, o, a).allocated == m.allocated,
        split_blocks(m, k, o, a).free.len() == m.free.len(),
        split_blocks(m, k, o, a).min_order == m.min_order,
        split_blocks(m, k, o, a).max_order == m.max_order,
        split_blocks(m, k, o, a).map_from == m.map_from,
        split_blocks(m, k, o, a).map_factor == m.map_factor,
    decreases k - o,
{
    if k > o {
        let m1 = add_block(m, k - 1, a + pow2((k - 1) as nat));
        assert(m1.free =~= m.free.update(k - 1 - m.min_order, list_at(m, k - 1).push(
            a + pow2((k - 1) as nat),
        )));
        assert(m1.free.len() == m.free.len());
        lemma_split_allocated_unchanged(m1, k - 1, o, a);
    }
}

/// Free-byte counting ignores everything but the lists.
proof fn lemma_free_bytes_frame(m1: AllocModel, m2: AllocModel, n: int)
    requires
        m1.free == m2.free,
        m1.min_order == m2.min_order,
    ensures
        free_bytes_upto(m1, n) == free_bytes_upto(m2, n),
    decreases n,
{
    if n > 0 {
        lemma_free_bytes_frame(m1, m2, n - 1);
    }
}

/// Replacing one list changes the total free bytes by that list's delta.
proof fn lemma_free_bytes_update(m: AllocModel, k: int, s2: Seq<int>, n: int)
    requires
        m.min_order <= k,
        k - m.min_order < m.free.len(),
        n <= m.free.len(),
    ensures
        ({
            let i = k - m.min_order;
            let m2 = with_list(m, k, s2);
            free_bytes_upto(m2, n) == free_bytes_upto(m, n) + (
            if i < n {
                (s2.len() - list_at(m, k).len()) * pow2(k as nat)
            } else {
                0
            })
        }),
    decreases n,
{
    let i = k - m.min_order;
    let m2 = with_list(m, k, s2);
    if n > 0 {
        lemma_free_bytes_update(m, k, s2, n - 1);
        if i == n - 1 {
            assert(m2.free[n - 1] == s2);
            assert((s2.len() - list_at(m, k).len()) * pow2(k as nat) == s2.len() * pow2(
                k as nat,
            ) - list_at(m, k).len() * pow2(k as nat)) by (nonlinear_arith);
        } else {
            assert(m2.free[n - 1] == m.free[n - 1]);
        }
    }
}

/// The total is non-negative and dominates each list's contribution.
proof fn lemma_free_bytes_bounds(m: AllocModel, n: int)
    requires
        m.min_order >= 0,
        n <= m.free.len(),
    ensures
        free_bytes_upto(m, n) >= 0,
        forall|i: int|
            0 <= i < n ==> (#[trigger] m.free[i]).len() * pow2((m.min_order + i) as nat)
                <= free_bytes_upto(m, n),
    decreases n,
{
    if n > 0 {
        lemma_free_bytes_bounds(m, n - 1);
        lemma_pow2_pos((m.min_order + n - 1) as nat);
        assert(m.free[n - 1].len() * pow2((m.min_order + n - 1) as nat) >= 0) by (nonlinear_arith)
            requires
                pow2((m.min_order + n - 1) as nat) >= 1,
        ;
    }
}

/// An unsuccessful search means every list from `o` up is empty.
proof fn lemma_find_none(m: AllocModel, o: int)
    requires
        find_free_order(m, o) is None,
    ensures
        forall|k: int| o <= k <= m.max_order ==> list_at(m, k).len() == 0,
    decreases m.max_order + 1 - o,
{
    if o <= m.max_order {
        lemma_find_none(m, o + 1);
    }
}

/// Splitting a donor of order `k` down to `o` returns all but `2^o` bytes to
/// the free lists.
proof fn lemma_split_bytes(m: AllocModel, k: int, o: int, a: int)
    requires
        0 <= m.min_order <= o <= k <= m.max_order,
        m.free.len() == m.max_order - m.min_order + 1,
    ensures
        free_bytes(split_blocks(m, k, o, a)) == free_bytes(m) + pow2(k as nat) - pow2(o as nat),
    decreases k - o,
{
    if k <= o {
    } else {
        let h = a + pow2((k - 1) as nat);
        let m1 = add_block(m, k - 1, h);
        lemma_split_bytes(m1, k - 1, o, a);
        let pushed = list_at(m, k - 1).push(h);
        lemma_free_bytes_update(m, k - 1, pushed, m.free.len() as int);
        lemma_free_bytes_frame(m1, push_free(m, k - 1, h), m.free.len() as int);
        assert(pushed.len() == list_at(m, k - 1).len() + 1);
        assert((pushed.len() - list_at(m, k - 1).len()) * pow2((k - 1) as nat) == pow2(
            (k - 1) as nat,
        )) by (nonlinear_arith)
            requires
                pushed.len() == list_at(m, k - 1).len() + 1,
        ;
        assert(free_bytes(m1) == free_bytes(m) + pow2((k - 1) as nat));
        assert(pow2(k as nat) == 2 * pow2((k - 1) as nat)) by {
            lemma_pow2_adds((k - 1) as nat, 1);
            vstd::arithmetic::power2::lemma2_to64();
        }
    }
}

/// Exhaustion in exact steps: allocating the minimum order succeeds exactly
/// while any free byte remains, and each success consumes exactly
/// `2^min_order` bytes, so the number of successes before `OutOfMemory` is
/// the total free capacity divided by the minimum block size.
pub proof fn lemma_min_order_exhaustion_step(m: AllocModel)
    requires
        wf(m),
    ensures
        (spec_alloc(m, m.min_order).1 is Ok) <==> free_bytes(m) > 0,
        (spec_alloc(m, m.min_order).1 is Ok) ==> free_bytes(spec_alloc(m, m.min_order).0)
            == free_bytes(m) - pow2(m.min_order as nat),
{
    let o = m.min_order;
    let n = m.free.len() as int;
    lemma_free_bytes_bounds(m, n);
    match find_free_order(m, o) {
        Option::None => {
            lemma_find_none(m, o);
            assert(free_bytes(m) <= 0) by {
                lemma_free_bytes_all_empty(m, n);
            }
        },
        Option::Some(k) => {
            lemma_find_props(m, o);
            let a = list_at(m, k).last();
            assert(list_at(m, k) == m.free[k - m.min_order]);
            assert(free_bytes(m) > 0) by {
                lemma_pow2_pos(k as nat);
                assert(m.free[k - m.min_order].len() * pow2(k as nat) >= pow2(k as nat))
                    by (nonlinear_arith)
                    requires
                        m.free[k - m.min_order].len() >= 1,
                        pow2(k as nat) >= 1,
                ;
            }
            let m1 = toggle_bit(pop_free(m, k), k, a);
            let dropped = list_at(m, k).drop_last();
            lemma_free_bytes_update(m, k, dropped, n);
            lemma_free_bytes_frame(m1, pop_free(m, k), n);
            assert((dropped.len() - list_at(m, k).len()) * pow2(k as nat) == -pow2(k as nat))
                by (nonlinear_arith)
                requires
                    dropped.len() == list_at(m, k).len() - 1,
            ;
            assert(free_bytes(m1) == free_bytes(m) - pow2(k as nat));
            lemma_split_bytes(m1, k, o, a);
            let m2 = split_blocks(m1, k, o, a);
            lemma_split_allocated_unchanged(m1, k, o, a);
            assert(m2.free.len() == n);
            lemma_free_bytes_frame(mark_allocated(m2, o, a), m2, n);
            assert(free_bytes(spec_alloc(m, o).0) == free_bytes(m) - pow2(o as nat));
        },
    }
}

/// If every list up to `n` is empty, no free bytes are counted.
proof fn lemma_free_bytes_all_empty(m: AllocModel, n: int)
    requires
        n <= m.free.len(),
        forall|k: int|
            m.min_order <= k <= m.max_order ==> list_at(m, k).len() == 0,
        m.free.len() == m.max_order - m.min_order + 1,
    ensures
        free_bytes_upto(m, n) == 0,
    decreases n,
{
    if n > 0 {
        lemma_free_bytes_all_empty(m, n - 1);
        assert(list_at(m, m.min_order + n - 1).len() == 0);
        assert(m.free[n - 1].len() == 0);
    }
}

/// Every bitmap index belongs to some tracked (order, pair) combination.
proof fn lemma_slot_decompose(m: AllocModel, k: int, i: int)
    requires
        wf_config(m),
        m.min_order <= k <= m.max_order,
        0 <= i < bit_offset(m, k) + pairs_at(m, k),
    ensures
        exists|k2: int, p: int|
            k <= k2 <= m.max_order && 0 <= p < pairs_at(m, k2) && i == #[trigger] slot_index(
                m,
                k2,
                p,
            ),
    decreases m.max_order - k,
{
    if i >= bit_offset(m, k) {
        assert(i == slot_index(m, k, i - bit_offset(m, k)));
    } else {
        assert(k < m.max_order) by {
            crate::invariants::lemma_offset_nonneg(m, k);
            if k == m.max_order {
                assert(bit_offset(m, k) == 0);
            }
        }
        assert(bit_offset(m, k) == bit_offset(m, k + 1) + pairs_at(m, k + 1));
        crate::invariants::lemma_pairs_at_pos(m, k);
        lemma_slot_decompose(m, k + 1, i);
    }
}

/// The flat bitmap index of pair `p` at order `k`.
pub open spec fn slot_index(m: AllocModel, k: int, p: int) -> int {
    bit_offset(m, k) + p
}

/// The pair bitmap is a function of the free lists: two well-formed states
/// over the same span with equal free lists have equal bitmaps.  In
/// particular, once every free list has returned to its post-initialization
/// contents, so has every pair bit.
pub proof fn lemma_bits_determined_by_lists(m1: AllocModel, m2: AllocModel)
    requires
        wf(m1),
        wf(m2),
        m1.min_order == m2.min_order,
        m1.max_order == m2.max_order,
        m1.map_from == m2.map_from,
        m1.map_factor == m2.map_factor,
        m1.free == m2.free,
    ensures
        m1.bits == m2.bits,
{
    assert(m1.bits.len() == m2.bits.len());
    assert forall|i: int| 0 <= i < m1.bits.len() implies m1.bits[i] == m2.bits[i] by {
        crate::invariants::lemma_pairs_at_pos(m1, m1.min_order);
        lemma_slot_decompose(m1, m1.min_order, i);
        let (k2, p) = choose|k2: int, p: int|
            m1.min_order <= k2 <= m1.max_order && 0 <= p < pairs_at(m1, k2) && i
                == #[trigger] slot_index(m1, k2, p);
        assert(xor_ok(m1, k2, p));
        assert(xor_ok(m2, k2, p));
        assert(list_at(m1, k2) == list_at(m2, k2));
    }
    assert(m1.bits =~= m2.bits);
}

} // verus!
