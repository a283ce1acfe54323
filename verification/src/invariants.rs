//! Preservation of the allocator invariant across the spec-level transitions,
//! and the arithmetic facts about pair indexing that the engine relies on.

use vstd::prelude::*;

verus! {

use crate::model::AllocModel;
use crate::model::Block;
use crate::model::add_block;
use crate::model::bit_offset;
use crate::model::block_ok;
use crate::model::blocks_disjoint;
use crate::model::buddy;
use crate::model::hole_ok;
use crate::model::is_free;
use crate::model::list_at;
use crate::model::map_to;
use crate::model::mark_allocated;
use crate::model::pair_low;
use crate::model::pair_not_split;
use crate::model::pair_of;
use crate::model::pairs_at;
use crate::model::pop_free;
use crate::model::remove_free;
use crate::model::slot;
use crate::model::span;
use crate::model::toggle_bit;
use crate::model::total_bits;
use crate::model::unmark_allocated;
use crate::model::wf;
use crate::model::wf_bits;
use crate::model::wf_config;
use crate::model::wf_pairs;
use crate::model::xor_ok;
use vstd::arithmetic::div_mod::lemma_fundamental_div_mod;
use vstd::arithmetic::div_mod::lemma_fundamental_div_mod_converse;
use vstd::arithmetic::power2::lemma_pow2_adds;
use vstd::arithmetic::power2::lemma_pow2_pos;
use vstd::arithmetic::power2::pow2;

/// Every tracked order contributes at least one pair slot.
pub proof fn lemma_pairs_at_pos(m: AllocModel, k: int)
    requires
        wf_config(m),
        k <= m.max_order,
    ensures
        pairs_at(m, k) >= 1,
{
    if k < m.max_order {
        lemma_pow2_pos((m.max_order - k - 1) as nat);
        assert(m.map_factor * pow2((m.max_order - k - 1) as nat) >= 1) by (nonlinear_arith)
            requires
                m.map_factor >= 1,
                pow2((m.max_order - k - 1) as nat) >= 1,
        ;
    }
}

/// Bit offsets grow downward through the orders: the offset of a lower order
/// lies past the whole slot range of any higher order.
pub proof fn lemma_offset_ordered(m: AllocModel, k1: int, k2: int)
    requires
        wf_config(m),
        m.min_order <= k1 <= k2 <= m.max_order,
    ensures
        k1 < k2 ==> bit_offset(m, k1) >= bit_offset(m, k2) + pairs_at(m, k2),
        bit_offset(m, k1) >= bit_offset(m, k2) >= 0,
    decreases k2 - k1,
{
    lemma_offset_nonneg(m, k2);
    if k1 < k2 {
        lemma_offset_ordered(m, k1 + 1, k2);
        lemma_pairs_at_pos(m, k1 + 1);
        lemma_pairs_at_pos(m, k2);
        assert(bit_offset(m, k1) == bit_offset(m, k1 + 1) + pairs_at(m, k1 + 1));
    }
}

/// Bit offsets are never negative.
pub proof fn lemma_offset_nonneg(m: AllocModel, k: int)
    requires
        wf_config(m),
        k <= m.max_order,
    ensures
        bit_offset(m, k) >= 0,
    decreases m.max_order - k,
{
    if k < m.max_order {
        lemma_offset_nonneg(m, k + 1);
        lemma_pairs_at_pos(m, k + 1);
    }
}

/// The slot range of order `k` lies inside the bitmap.
pub proof fn lemma_slot_range(m: AllocModel, k: int)
    requires
        wf_config(m),
        m.min_order <= k <= m.max_order,
    ensures
        bit_offset(m, k) >= 0,
        bit_offset(m, k) + pairs_at(m, k) <= total_bits(m),
{
    lemma_offset_ordered(m, m.min_order, k);
    lemma_pairs_at_pos(m, m.min_order);
}

/// Distinct (order, pair) combinations map to distinct bitmap indices.
pub proof fn lemma_slot_injective(m: AllocModel, k1: int, p1: int, k2: int, p2: int)
    requires
        wf_config(m),
        m.min_order <= k1 <= m.max_order,
        m.min_order <= k2 <= m.max_order,
        0 <= p1 < pairs_at(m, k1),
        0 <= p2 < pairs_at(m, k2),
        k1 != k2 || p1 != p2,
    ensures
        bit_offset(m, k1) + p1 != bit_offset(m, k2) + p2,
{
    if k1 == k2 {
    } else if k1 < k2 {
        lemma_offset_ordered(m, k1, k2);
    } else {
        lemma_offset_ordered(m, k2, k1);
    }
}

/// Characterization of the pair index of a valid block: its bounds, the pair's
/// lower member, and the buddy address.
pub proof fn lemma_pair_of_block(m: AllocModel, k: int, a: int)
    requires
        wf_config(m),
        block_ok(m, k, a),
    ensures
        ({
            let pk = pow2(k as nat) as int;
            let q = (a - m.map_from) / pk;
            let p = pair_of(m, k, a);
            &&& 0 <= p < pairs_at(m, k)
            &&& a - m.map_from == q * pk
            &&& q >= 0
            &&& (q % 2 == 0 ==> pair_low(m, k, p) == a && buddy(m, k, a) == a + pk)
            &&& (q % 2 != 0 ==> pair_low(m, k, p) == a - pk && buddy(m, k, a) == a - pk)
            &&& buddy(m, k, a) != a
            &&& pair_of(m, k, pair_low(m, k, p)) == p
            &&& pair_of(m, k, pair_low(m, k, p) + pk) == p
            &&& pair_low(m, k, p) == a || pair_low(m, k, p) + pk == a
            &&& buddy(m, k, a) == pair_low(m, k, p) || buddy(m, k, a) == pair_low(m, k, p) + pk
            &&& buddy(m, k, a) + pair_low(m, k, p) + pk == a + pair_low(m, k, p) + pk + (
            if pair_low(m, k, p) == a {
                pk
            } else {
                -pk
            })
        }),
{
    let pk = pow2(k as nat) as int;
    lemma_pow2_pos(k as nat);
    let d = a - m.map_from;
    let q = d / pk;
    lemma_fundamental_div_mod(d, pk);
    assert(d == q * pk);
    assert(q >= 0) by (nonlinear_arith)
        requires
            d >= 0,
            pk >= 1,
            d == q * pk,
    ;
    // p == q / 2, by rewriting d as (q/2)*(2*pk) + remainder.
    lemma_fundamental_div_mod(q, 2);
    let h = q / 2;
    let r = q % 2;
    assert(d == h * (2 * pk) + r * pk) by (nonlinear_arith)
        requires
            d == q * pk,
            q == 2 * h + r,
    ;
    lemma_fundamental_div_mod_converse(d, 2 * pk, h, r * pk);
    let p = pair_of(m, k, a);
    assert(p == h);
    assert(pair_low(m, k, p) == m.map_from + h * (2 * pk));
    assert(h * (2 * pk) == q * pk - r * pk) by (nonlinear_arith)
        requires
            q == 2 * h + r,
    ;
    // Pair index of each member.
    lemma_fundamental_div_mod_converse(h * (2 * pk), 2 * pk, h, 0);
    lemma_fundamental_div_mod_converse(h * (2 * pk) + pk, 2 * pk, h, pk);
    // The pair index is in range.
    if k < m.max_order {
        let e = pow2((m.max_order - k - 1) as nat) as int;
        lemma_pow2_pos((m.max_order - k - 1) as nat);
        lemma_pow2_adds(k as nat, (m.max_order - k) as nat);
        lemma_pow2_adds(1, (m.max_order - k - 1) as nat);
        lemma_pow2_adds(k as nat, 1);
        assert(pow2((m.max_order - k) as nat) == 2 * e) by {
            vstd::arithmetic::power2::lemma2_to64();
        }
        assert(pow2(m.max_order as nat) == pow2(k as nat) * pow2((m.max_order - k) as nat));
        assert(q * pk + pk <= m.map_factor * (pk * (2 * e)));
        assert(p < m.map_factor * e) by (nonlinear_arith)
            requires
                q * pk + pk <= m.map_factor * (pk * (2 * e)),
                pk >= 1,
                e >= 1,
                m.map_factor >= 1,
                q == 2 * p + r,
                0 <= r < 2,
                p == q / 2,
        ;
    } else {
        assert(q * pk + pk <= m.map_factor * pk);
        assert(q + 1 <= m.map_factor) by (nonlinear_arith)
            requires
                q * pk + pk <= m.map_factor * pk,
                pk >= 1,
        ;
        assert(p < (m.map_factor + 1) / 2);
    }
}

/// The bitmap index of a valid block is inside the bitmap, and agrees with
/// the (order, pair) decomposition.
pub proof fn lemma_slot_ok(m: AllocModel, k: int, a: int)
    requires
        wf_config(m),
        block_ok(m, k, a),
    ensures
        slot(m, k, a) == bit_offset(m, k) + pair_of(m, k, a),
        0 <= slot(m, k, a) < m.bits.len(),
        0 <= pair_of(m, k, a) < pairs_at(m, k),
{
    lemma_pair_of_block(m, k, a);
    lemma_slot_range(m, k);
}

/// Membership and duplicate-freedom facts about `push`.
pub proof fn lemma_push_membership(s: Seq<int>, v: int)
    ensures
        forall|x: int| #[trigger] s.push(v).contains(x) <==> (s.contains(x) || x == v),
        s.no_duplicates() && !s.contains(v) ==> s.push(v).no_duplicates(),
{
    assert forall|x: int| #[trigger] s.push(v).contains(x) implies (s.contains(x) || x == v) by {
        let i = choose|i: int| 0 <= i < s.push(v).len() && s.push(v)[i] == x;
        if i < s.len() {
            assert(s[i] == x);
        }
    }
    assert forall|x: int| s.contains(x) || x == v implies #[trigger] s.push(v).contains(x) by {
        if s.contains(x) {
            let i = choose|i: int| 0 <= i < s.len() && s[i] == x;
            assert(s.push(v)[i] == x);
        } else {
            assert(s.push(v)[s.len() as int] == v);
        }
    }
}

/// Membership and duplicate-freedom facts about `drop_last`.
pub proof fn lemma_drop_last_membership(s: Seq<int>)
    requires
        s.len() > 0,
        s.no_duplicates(),
    ensures
        forall|x: int| #[trigger] s.drop_last().contains(x) <==> (s.contains(x) && x != s.last()),
        s.drop_last().no_duplicates(),
{
    let d = s.drop_last();
    assert forall|x: int| #[trigger] d.contains(x) implies (s.contains(x) && x != s.last()) by {
        let i = choose|i: int| 0 <= i < d.len() && d[i] == x;
        assert(s[i] == x);
        assert(s[i] != s[s.len() - 1]);
    }
    assert forall|x: int| s.contains(x) && x != s.last() implies #[trigger] d.contains(x) by {
        let i = choose|i: int| 0 <= i < s.len() && s[i] == x;
        assert(i != s.len() - 1);
        assert(d[i] == x);
    }
}

/// Membership and duplicate-freedom facts about `remove_value`.
pub proof fn lemma_remove_value_membership(s: Seq<int>, v: int)
    requires
        s.no_duplicates(),
        s.contains(v),
    ensures
        s.remove_value(v).len() == s.len() - 1,
        s.remove_value(v).no_duplicates(),
        !s.remove_value(v).contains(v),
        forall|x: int|
            x != v ==> (#[trigger] s.remove_value(v).contains(x) <==> s.contains(x)),
{
    s.index_of_first_ensures(v);
    let i = s.index_of_first(v).unwrap();
    s.remove_ensures(i);
    let r = s.remove(i);
    assert(r == s.remove_value(v));
    assert forall|x: int| #[trigger] r.contains(x) implies (s.contains(x) && x != v) by {
        let j = choose|j: int| 0 <= j < r.len() && r[j] == x;
        if j < i {
            assert(s[j] == x);
            assert(s[j] != s[i]);
        } else {
            assert(s[j + 1] == x);
            assert(s[j + 1] != s[i]);
        }
    }
    assert forall|x: int| s.contains(x) && x != v implies #[trigger] r.contains(x) by {
        let j = choose|j: int| 0 <= j < s.len() && s[j] == x;
        assert(j != i);
        if j < i {
            assert(r[j] == x);
        } else {
            assert(r[j - 1] == x);
        }
    }
    assert forall|j1: int, j2: int| 0 <= j1 < j2 < r.len() implies r[j1] != r[j2] by {
        let x1 = if j1 < i { s[j1] } else { s[j1 + 1] };
        let x2 = if j2 < i { s[j2] } else { s[j2 + 1] };
        assert(r[j1] == x1 && r[j2] == x2);
    }
}

/// Both members of pair `p` at order `k` have pair index `p`.
pub proof fn lemma_pair_members(m: AllocModel, k: int, p: int)
    requires
        wf_config(m),
        0 <= k,
        0 <= p,
    ensures
        pair_of(m, k, pair_low(m, k, p)) == p,
        pair_of(m, k, pair_low(m, k, p) + pow2(k as nat)) == p,
        pair_low(m, k, p) + pow2(k as nat) != pair_low(m, k, p),
{
    let pk = pow2(k as nat) as int;
    lemma_pow2_pos(k as nat);
    lemma_fundamental_div_mod_converse(p * (2 * pk), 2 * pk, p, 0);
    lemma_fundamental_div_mod_converse(p * (2 * pk) + pk, 2 * pk, p, pk);
}

/// The XOR invariant survives a transition that flips the free status of one
/// valid block and toggles exactly that block's pair bit.
pub proof fn lemma_bits_update(m: AllocModel, m2: AllocModel, k: int, a0: int)
    requires
        wf_config(m),
        wf_bits(m),
        block_ok(m, k, a0),
        m2.min_order == m.min_order,
        m2.max_order == m.max_order,
        m2.map_from == m.map_from,
        m2.map_factor == m.map_factor,
        m2.free.len() == m.free.len(),
        m2.bits == m.bits.update(slot(m, k, a0), !m.bits[slot(m, k, a0)]),
        forall|k2: int|
            m.min_order <= k2 <= m.max_order && k2 != k ==> list_at(m2, k2) == list_at(m, k2),
        forall|x: int| x != a0 ==> (is_free(m2, k, x) <==> is_free(m, k, x)),
        is_free(m2, k, a0) == !is_free(m, k, a0),
    ensures
        wf_bits(m2),
{
    lemma_slot_ok(m, k, a0);
    lemma_pair_of_block(m, k, a0);
    let p0 = pair_of(m, k, a0);
    let s0 = slot(m, k, a0);
    assert forall|k2: int, p: int|
        m2.min_order <= k2 <= m2.max_order && 0 <= p < pairs_at(m2, k2) implies #[trigger] xor_ok(
        m2,
        k2,
        p,
    ) by {
        assert(xor_ok(m, k2, p));
        lemma_slot_range(m, k2);
        let pk2 = pow2(k2 as nat) as int;
        let lo = pair_low(m, k2, p);
        let hi = lo + pk2;
        lemma_pair_members(m, k2, p);
        if k2 != k {
            lemma_slot_injective(m, k2, p, k, p0);
            assert(m2.bits[bit_offset(m, k2) + p] == m.bits[bit_offset(m, k2) + p]);
            assert(list_at(m2, k2) == list_at(m, k2));
        } else if p != p0 {
            lemma_slot_injective(m, k2, p, k, p0);
            assert(m2.bits[bit_offset(m, k2) + p] == m.bits[bit_offset(m, k2) + p]);
            assert(lo != a0 && hi != a0);
        } else {
            assert(bit_offset(m, k2) + p == s0);
            assert(m2.bits[s0] == !m.bits[s0]);
            assert(lo == a0 || hi == a0);
            assert(lo != hi);
        }
    }
}

/// All pair-coalescence constraints survive such a transition, given the one
/// for the affected pair itself.
pub proof fn lemma_pairs_update(m: AllocModel, m2: AllocModel, k: int, a0: int)
    requires
        wf_config(m),
        wf_pairs(m),
        block_ok(m, k, a0),
        m2.min_order == m.min_order,
        m2.max_order == m.max_order,
        m2.map_from == m.map_from,
        m2.map_factor == m.map_factor,
        m2.free.len() == m.free.len(),
        forall|k2: int|
            m.min_order <= k2 <= m.max_order && k2 != k ==> list_at(m2, k2) == list_at(m, k2),
        forall|x: int| x != a0 ==> (is_free(m2, k, x) <==> is_free(m, k, x)),
        k < m.max_order ==> pair_not_split(m2, k, pair_of(m, k, a0)),
    ensures
        wf_pairs(m2),
{
    lemma_pair_of_block(m, k, a0);
    let p0 = pair_of(m, k, a0);
    assert forall|k2: int, p: int|
        m2.min_order <= k2 < m2.max_order && 0 <= p < pairs_at(m2, k2) implies #[trigger] pair_not_split(
        m2,
        k2,
        p,
    ) by {
        assert(pair_not_split(m, k2, p));
        let pk2 = pow2(k2 as nat) as int;
        let lo = pair_low(m, k2, p);
        let hi = lo + pk2;
        lemma_pair_members(m, k2, p);
        if k2 != k {
            assert(list_at(m2, k2) == list_at(m, k2));
        } else if p != p0 {
            assert(lo != a0 && hi != a0);
        }
    }
}

/// `pow2(k) == 2 * pow2(k - 1)` for positive `k`.
proof fn lemma_pow2_split(k: int)
    requires
        k >= 1,
    ensures
        pow2(k as nat) == 2 * pow2((k - 1) as nat),
        pow2(k as nat) > pow2((k - 1) as nat) >= 1,
{
    lemma_pow2_adds((k - 1) as nat, 1);
    vstd::arithmetic::power2::lemma2_to64();
    lemma_pow2_pos((k - 1) as nat);
    assert(pow2((k - 1) as nat) * 2 == 2 * pow2((k - 1) as nat)) by (nonlinear_arith);
}


/// Taking the head of a non-empty free list and toggling its pair bit leaves
/// a well-formed state in which the head block is held by the engine.
pub proof fn lemma_take_donor(m: AllocModel, k: int)
    requires
        wf(m),
        m.min_order <= k <= m.max_order,
        list_at(m, k).len() > 0,
    ensures
        ({
            let a = list_at(m, k).last();
            let m1 = toggle_bit(pop_free(m, k), k, a);
            &&& is_free(m, k, a)
            &&& block_ok(m, k, a)
            &&& m1.allocated == m.allocated
            &&& wf(m1)
            &&& hole_ok(m1, k, a)
        }),
{
    let a = list_at(m, k).last();
    assert(list_at(m, k)[list_at(m, k).len() - 1] == a);
    assert(is_free(m, k, a));
    assert(block_ok(m, k, a));
    lemma_pow2_pos(k as nat);
    let m1 = toggle_bit(pop_free(m, k), k, a);
    lemma_slot_ok(m, k, a);
    assert(list_at(m, k).no_duplicates());
    lemma_drop_last_membership(list_at(m, k));
    assert(map_to(m1) == map_to(m));
    assert(list_at(m1, k) == list_at(m, k).drop_last());
    assert forall|k2: int|
        m.min_order <= k2 <= m.max_order && k2 != k implies list_at(m1, k2) == list_at(
        m,
        k2,
    ) by {}
    assert(!is_free(m1, k, a));
    lemma_bits_update(m, m1, k, a);
    let p0 = pair_of(m, k, a);
    lemma_pair_of_block(m, k, a);
    if k < m.max_order {
        assert(pair_not_split(m1, k, p0)) by {
            lemma_pair_members(m, k, p0);
            assert(pair_not_split(m, k, p0));
        }
    }
    lemma_pairs_update(m, m1, k, a);
    assert forall|k2: int, x: int|
        m1.min_order <= k2 <= m1.max_order && #[trigger] is_free(m1, k2, x) implies block_ok(
        m1,
        k2,
        x,
    ) && is_free(m, k2, x) && (k2 != k || x != a) by {
        if k2 == k {
            assert(is_free(m, k2, x));
        } else {
            assert(list_at(m1, k2) == list_at(m, k2));
            assert(is_free(m, k2, x));
        }
        assert(block_ok(m, k2, x));
    }
    assert forall|k2: int| m1.min_order <= k2 <= m1.max_order implies (#[trigger] list_at(
        m1,
        k2,
    )).no_duplicates() by {
        assert(list_at(m, k2).no_duplicates());
    }
    assert forall|k1: int, a1: int, k2: int, a2: int|
        m1.min_order <= k1 <= m1.max_order && m1.min_order <= k2 <= m1.max_order
            && #[trigger] is_free(m1, k1, a1) && #[trigger] is_free(m1, k2, a2) && (k1 != k2 || a1
            != a2) implies blocks_disjoint(k1, a1, k2, a2) by {
        assert(is_free(m, k1, a1) && is_free(m, k2, a2));
    }
    assert forall|k2: int, x: int, b: Block|
        m1.min_order <= k2 <= m1.max_order && #[trigger] is_free(m1, k2, x)
            && #[trigger] m1.allocated.contains(b) implies blocks_disjoint(
        k2,
        x,
        b.order,
        b.addr,
    ) by {
        assert(is_free(m, k2, x));
        assert(m.allocated.contains(b));
    }
    assert(wf(m1));
    assert forall|k2: int, x: int|
        m1.min_order <= k2 <= m1.max_order && #[trigger] is_free(m1, k2, x) implies blocks_disjoint(
        k2,
        x,
        k,
        a,
    ) by {
        assert(is_free(m, k2, x) && (k2 != k || x != a));
    }
    assert forall|b: Block| #[trigger] m1.allocated.contains(b) implies blocks_disjoint(
        b.order,
        b.addr,
        k,
        a,
    ) by {
        assert(m.allocated.contains(b));
        assert(is_free(m, k, a));
    }
}

/// Recording a held block as handed out keeps the state well formed.
pub proof fn lemma_mark_hole(m: AllocModel, k: int, a: int)
    requires
        wf(m),
        hole_ok(m, k, a),
    ensures
        wf(mark_allocated(m, k, a)),
{
    let mm = mark_allocated(m, k, a);
    let hb = Block { order: k, addr: a };
    assert(wf_config(mm));
    assert forall|k2: int, p: int|
        mm.min_order <= k2 <= mm.max_order && 0 <= p < pairs_at(mm, k2) implies #[trigger] xor_ok(
        mm,
        k2,
        p,
    ) by {
        assert(xor_ok(m, k2, p));
    }
    assert forall|k2: int, p: int|
        mm.min_order <= k2 < mm.max_order && 0 <= p < pairs_at(mm, k2) implies #[trigger] pair_not_split(
        mm,
        k2,
        p,
    ) by {
        assert(pair_not_split(m, k2, p));
    }
    assert forall|k2: int, x: int|
        mm.min_order <= k2 <= mm.max_order && #[trigger] is_free(mm, k2, x) implies block_ok(
        mm,
        k2,
        x,
    ) by {
        assert(is_free(m, k2, x));
        assert(block_ok(m, k2, x));
    }
    assert forall|b: Block| #[trigger] mm.allocated.contains(b) implies block_ok(
        mm,
        b.order,
        b.addr,
    ) by {
        if b != hb {
            assert(m.allocated.contains(b));
        }
    }
    assert forall|k2: int| mm.min_order <= k2 <= mm.max_order implies (#[trigger] list_at(
        mm,
        k2,
    )).no_duplicates() by {
        assert(list_at(m, k2).no_duplicates());
    }
    assert forall|k1: int, a1: int, k2: int, a2: int|
        mm.min_order <= k1 <= mm.max_order && mm.min_order <= k2 <= mm.max_order
            && #[trigger] is_free(mm, k1, a1) && #[trigger] is_free(mm, k2, a2) && (k1 != k2 || a1
            != a2) implies blocks_disjoint(k1, a1, k2, a2) by {
        assert(is_free(m, k1, a1) && is_free(m, k2, a2));
    }
    assert forall|k2: int, x: int, b: Block|
        mm.min_order <= k2 <= mm.max_order && #[trigger] is_free(mm, k2, x)
            && #[trigger] mm.allocated.contains(b) implies blocks_disjoint(
        k2,
        x,
        b.order,
        b.addr,
    ) by {
        assert(is_free(m, k2, x));
        if b != hb {
            assert(m.allocated.contains(b));
        }
    }
    assert forall|b1: Block, b2: Block|
        #[trigger] mm.allocated.contains(b1) && #[trigger] mm.allocated.contains(b2) && b1
            != b2 implies blocks_disjoint(b1.order, b1.addr, b2.order, b2.addr) by {
        if b1 == hb {
            assert(m.allocated.contains(b2));
        } else if b2 == hb {
            assert(m.allocated.contains(b1));
        } else {
            assert(m.allocated.contains(b1) && m.allocated.contains(b2));
        }
    }
}

/// Forgetting an outstanding allocation turns it into a held block.
pub proof fn lemma_unmark_hole(m: AllocModel, k: int, a: int)
    requires
        wf(m),
        m.allocated.contains(Block { order: k, addr: a }),
    ensures
        ({
            let m1 = unmark_allocated(m, k, a);
            &&& block_ok(m, k, a)
            &&& m1.free == m.free
            &&& m1.bits == m.bits
            &&& wf(m1)
            &&& hole_ok(m1, k, a)
        }),
{
    let m1 = unmark_allocated(m, k, a);
    let hb = Block { order: k, addr: a };
    assert(block_ok(m, k, a));
    assert(wf_config(m1));
    assert forall|k2: int, p: int|
        m1.min_order <= k2 <= m1.max_order && 0 <= p < pairs_at(m1, k2) implies #[trigger] xor_ok(
        m1,
        k2,
        p,
    ) by {
        assert(xor_ok(m, k2, p));
    }
    assert forall|k2: int, p: int|
        m1.min_order <= k2 < m1.max_order && 0 <= p < pairs_at(m1, k2) implies #[trigger] pair_not_split(
        m1,
        k2,
        p,
    ) by {
        assert(pair_not_split(m, k2, p));
    }
    assert forall|k2: int, x: int|
        m1.min_order <= k2 <= m1.max_order && #[trigger] is_free(m1, k2, x) implies block_ok(
        m1,
        k2,
        x,
    ) && blocks_disjoint(k2, x, k, a) by {
        assert(is_free(m, k2, x));
        assert(block_ok(m, k2, x));
    }
    assert forall|b: Block| #[trigger] m1.allocated.contains(b) implies block_ok(
        m1,
        b.order,
        b.addr,
    ) && blocks_disjoint(b.order, b.addr, k, a) by {
        assert(m.allocated.contains(b));
        assert(b != hb);
    }
    assert forall|k2: int| m1.min_order <= k2 <= m1.max_order implies (#[trigger] list_at(
        m1,
        k2,
    )).no_duplicates() by {
        assert(list_at(m, k2).no_duplicates());
    }
    assert forall|k1: int, a1: int, k2: int, a2: int|
        m1.min_order <= k1 <= m1.max_order && m1.min_order <= k2 <= m1.max_order
            && #[trigger] is_free(m1, k1, a1) && #[trigger] is_free(m1, k2, a2) && (k1 != k2 || a1
            != a2) implies blocks_disjoint(k1, a1, k2, a2) by {
        assert(is_free(m, k1, a1) && is_free(m, k2, a2));
    }
    assert forall|k2: int, x: int, b: Block|
        m1.min_order <= k2 <= m1.max_order && #[trigger] is_free(m1, k2, x)
            && #[trigger] m1.allocated.contains(b) implies blocks_disjoint(
        k2,
        x,
        b.order,
        b.addr,
    ) by {
        assert(is_free(m, k2, x));
        assert(m.allocated.contains(b));
    }
    assert forall|b1: Block, b2: Block|
        #[trigger] m1.allocated.contains(b1) && #[trigger] m1.allocated.contains(b2) && b1
            != b2 implies blocks_disjoint(b1.order, b1.addr, b2.order, b2.addr) by {
        assert(m.allocated.contains(b1) && m.allocated.contains(b2));
    }
}

/// Splitting a held block: pushing its upper half keeps the state well
/// formed, with the lower half still held.
pub proof fn lemma_split_push(m: AllocModel, k: int, a: int)
    requires
        wf(m),
        hole_ok(m, k, a),
        m.min_order < k <= m.max_order,
    ensures
        ({
            let h = a + pow2((k - 1) as nat);
            let m1 = add_block(m, k - 1, h);
            &&& block_ok(m, k - 1, h)
            &&& block_ok(m, k - 1, a)
            &&& !is_free(m, k - 1, h)
            &&& m1.allocated == m.allocated
            &&& wf(m1)
            &&& hole_ok(m1, k - 1, a)
        }),
{
    let pk = pow2(k as nat) as int;
    let pk1 = pow2((k - 1) as nat) as int;
    lemma_pow2_split(k);
    let h = a + pk1;
    let d = a - m.map_from;
    let q = d / pk;
    lemma_fundamental_div_mod(d, pk);
    assert(block_ok(m, k - 1, a) && block_ok(m, k - 1, h)) by {
        assert(d == (2 * q) * pk1 && h - m.map_from == (2 * q + 1) * pk1) by (nonlinear_arith)
            requires
                d == q * pk,
                pk == 2 * pk1,
                h == a + pk1 && d == a - m.map_from,
        ;
        lemma_fundamental_div_mod_converse(d, pk1, 2 * q, 0);
        lemma_fundamental_div_mod_converse(h - m.map_from, pk1, 2 * q + 1, 0);
    }
    assert(!is_free(m, k - 1, h)) by {
        if is_free(m, k - 1, h) {
            assert(blocks_disjoint(k - 1, h, k, a));
        }
    }
    assert(!is_free(m, k - 1, a)) by {
        if is_free(m, k - 1, a) {
            assert(blocks_disjoint(k - 1, a, k, a));
        }
    }
    let m1 = add_block(m, k - 1, h);
    lemma_slot_ok(m, k - 1, h);
    assert(list_at(m, k - 1).no_duplicates());
    lemma_push_membership(list_at(m, k - 1), h);
    assert(map_to(m1) == map_to(m));
    assert(list_at(m1, k - 1) == list_at(m, k - 1).push(h));
    assert forall|k2: int|
        m.min_order <= k2 <= m.max_order && k2 != k - 1 implies list_at(m1, k2) == list_at(
        m,
        k2,
    ) by {}
    lemma_bits_update(m, m1, k - 1, h);
    let p0 = pair_of(m, k - 1, h);
    assert(pair_not_split(m1, k - 1, p0)) by {
        lemma_pair_of_block(m, k - 1, h);
        assert(((h - m.map_from) / pk1) % 2 != 0) by {
            assert(h - m.map_from == (2 * q + 1) * pk1) by (nonlinear_arith)
                requires
                    d == q * pk,
                    pk == 2 * pk1,
                    h == a + pk1 && d == a - m.map_from,
            ;
            lemma_fundamental_div_mod_converse(h - m.map_from, pk1, 2 * q + 1, 0);
            lemma_fundamental_div_mod_converse(2 * q + 1, 2, q, 1);
        }
        assert(pair_low(m, k - 1, p0) == a);
        assert(!is_free(m1, k - 1, a));
    }
    lemma_pairs_update(m, m1, k - 1, h);
    assert forall|k2: int, x: int|
        m1.min_order <= k2 <= m1.max_order && #[trigger] is_free(m1, k2, x) implies block_ok(
        m1,
        k2,
        x,
    ) by {
        if k2 == k - 1 && x == h {
        } else {
            if k2 == k - 1 {
                assert(is_free(m, k2, x));
            } else {
                assert(list_at(m1, k2) == list_at(m, k2));
                assert(is_free(m, k2, x));
            }
            assert(block_ok(m, k2, x));
        }
    }
    assert forall|k2: int| m1.min_order <= k2 <= m1.max_order implies (#[trigger] list_at(
        m1,
        k2,
    )).no_duplicates() by {
        assert(list_at(m, k2).no_duplicates());
    }
    assert forall|k1: int, a1: int, k2: int, a2: int|
        m1.min_order <= k1 <= m1.max_order && m1.min_order <= k2 <= m1.max_order
            && #[trigger] is_free(m1, k1, a1) && #[trigger] is_free(m1, k2, a2) && (k1 != k2 || a1
            != a2) implies blocks_disjoint(k1, a1, k2, a2) by {
        if k1 == k - 1 && a1 == h && !(k2 == k - 1 && a2 == h) {
            assert(is_free(m, k2, a2));
            assert(blocks_disjoint(k2, a2, k, a));
        } else if k2 == k - 1 && a2 == h && !(k1 == k - 1 && a1 == h) {
            assert(is_free(m, k1, a1));
            assert(blocks_disjoint(k1, a1, k, a));
        } else if !(k1 == k - 1 && a1 == h) {
            assert(is_free(m, k1, a1) && is_free(m, k2, a2));
        }
    }
    assert forall|k2: int, x: int, b: Block|
        m1.min_order <= k2 <= m1.max_order && #[trigger] is_free(m1, k2, x)
            && #[trigger] m1.allocated.contains(b) implies blocks_disjoint(
        k2,
        x,
        b.order,
        b.addr,
    ) by {
        assert(m.allocated.contains(b));
        assert(blocks_disjoint(b.order, b.addr, k, a));
        if !(k2 == k - 1 && x == h) {
            assert(is_free(m, k2, x));
        }
    }
    assert forall|b1: Block, b2: Block|
        #[trigger] m1.allocated.contains(b1) && #[trigger] m1.allocated.contains(b2) && b1
            != b2 implies blocks_disjoint(b1.order, b1.addr, b2.order, b2.addr) by {
        assert(m.allocated.contains(b1) && m.allocated.contains(b2));
    }
    assert(wf(m1));
    assert(block_ok(m1, k - 1, a));
    assert forall|k2: int, x: int|
        m1.min_order <= k2 <= m1.max_order && #[trigger] is_free(m1, k2, x) implies blocks_disjoint(
        k2,
        x,
        k - 1,
        a,
    ) by {
        if k2 == k - 1 && x == h {
        } else {
            if k2 == k - 1 {
                assert(is_free(m, k2, x));
            } else {
                assert(list_at(m1, k2) == list_at(m, k2));
                assert(is_free(m, k2, x));
            }
            assert(blocks_disjoint(k2, x, k, a));
        }
    }
    assert forall|b: Block| #[trigger] m1.allocated.contains(b) implies blocks_disjoint(
        b.order,
        b.addr,
        k - 1,
        a,
    ) by {
        assert(m.allocated.contains(b));
        assert(blocks_disjoint(b.order, b.addr, k, a));
    }
}

/// Parking a held block: when its pair bit is clear (or the top order is
/// reached), linking it back and toggling the bit restores well-formedness.
pub proof fn lemma_release_stop(m: AllocModel, k: int, a: int)
    requires
        wf(m),
        hole_ok(m, k, a),
        k == m.max_order || !m.bits[slot(m, k, a)],
    ensures
        !is_free(m, k, a),
        wf(add_block(m, k, a)),
        add_block(m, k, a).allocated == m.allocated,
{
    lemma_pow2_pos(k as nat);
    assert(!is_free(m, k, a)) by {
        if is_free(m, k, a) {
            assert(blocks_disjoint(k, a, k, a));
        }
    }
    let m1 = add_block(m, k, a);
    lemma_slot_ok(m, k, a);
    lemma_pair_of_block(m, k, a);
    assert(list_at(m, k).no_duplicates());
    lemma_push_membership(list_at(m, k), a);
    assert(map_to(m1) == map_to(m));
    assert(list_at(m1, k) == list_at(m, k).push(a));
    assert forall|k2: int|
        m.min_order <= k2 <= m.max_order && k2 != k implies list_at(m1, k2) == list_at(
        m,
        k2,
    ) by {}
    lemma_bits_update(m, m1, k, a);
    let p0 = pair_of(m, k, a);
    let pk = pow2(k as nat) as int;
    if k < m.max_order {
        assert(pair_not_split(m1, k, p0)) by {
            assert(xor_ok(m, k, p0));
            let lo = pair_low(m, k, p0);
            let other = if lo == a {
                lo + pk
            } else {
                lo
            };
            assert(!is_free(m, k, other));
            assert(other != a);
            assert(!is_free(m1, k, other));
        }
    }
    lemma_pairs_update(m, m1, k, a);
    assert forall|k2: int, x: int|
        m1.min_order <= k2 <= m1.max_order && #[trigger] is_free(m1, k2, x) implies block_ok(
        m1,
        k2,
        x,
    ) by {
        if !(k2 == k && x == a) {
            if k2 == k {
                assert(is_free(m, k2, x));
            } else {
                assert(list_at(m1, k2) == list_at(m, k2));
                assert(is_free(m, k2, x));
            }
            assert(block_ok(m, k2, x));
        }
    }
    assert forall|k2: int| m1.min_order <= k2 <= m1.max_order implies (#[trigger] list_at(
        m1,
        k2,
    )).no_duplicates() by {
        assert(list_at(m, k2).no_duplicates());
    }
    assert forall|k1: int, a1: int, k2: int, a2: int|
        m1.min_order <= k1 <= m1.max_order && m1.min_order <= k2 <= m1.max_order
            && #[trigger] is_free(m1, k1, a1) && #[trigger] is_free(m1, k2, a2) && (k1 != k2 || a1
            != a2) implies blocks_disjoint(k1, a1, k2, a2) by {
        if k1 == k && a1 == a && !(k2 == k && a2 == a) {
            assert(is_free(m, k2, a2));
            assert(blocks_disjoint(k2, a2, k, a));
        } else if k2 == k && a2 == a && !(k1 == k && a1 == a) {
            assert(is_free(m, k1, a1));
            assert(blocks_disjoint(k1, a1, k, a));
        } else if !(k1 == k && a1 == a) {
            assert(is_free(m, k1, a1) && is_free(m, k2, a2));
        }
    }
    assert forall|k2: int, x: int, b: Block|
        m1.min_order <= k2 <= m1.max_order && #[trigger] is_free(m1, k2, x)
            && #[trigger] m1.allocated.contains(b) implies blocks_disjoint(
        k2,
        x,
        b.order,
        b.addr,
    ) by {
        assert(m.allocated.contains(b));
        if k2 == k && x == a {
            assert(blocks_disjoint(b.order, b.addr, k, a));
        } else {
            assert(is_free(m, k2, x));
        }
    }
    assert forall|b1: Block, b2: Block|
        #[trigger] m1.allocated.contains(b1) && #[trigger] m1.allocated.contains(b2) && b1
            != b2 implies blocks_disjoint(b1.order, b1.addr, b2.order, b2.addr) by {
        assert(m.allocated.contains(b1) && m.allocated.contains(b2));
    }
}

/// Merging a held block with its free buddy: the buddy really is on the free
/// list, and unlinking it while clearing the pair bit leaves a well-formed
/// state in which the parent block is held.
pub proof fn lemma_release_merge(m: AllocModel, k: int, a: int)
    requires
        wf(m),
        hole_ok(m, k, a),
        m.min_order <= k < m.max_order,
        m.bits[slot(m, k, a)],
    ensures
        ({
            let b = buddy(m, k, a);
            let parent = if a < b {
                a
            } else {
                b
            };
            let m1 = toggle_bit(remove_free(m, k, b), k, a);
            &&& is_free(m, k, b)
            &&& block_ok(m, k, b)
            &&& b != a
            &&& slot(m, k, b) == slot(m, k, a)
            &&& parent == pair_low(m, k, pair_of(m, k, a))
            &&& block_ok(m, k + 1, parent)
            &&& m1.allocated == m.allocated
            &&& wf(m1)
            &&& hole_ok(m1, k + 1, parent)
        }),
{
    let pk = pow2(k as nat) as int;
    let pk2 = pow2((k + 1) as nat) as int;
    lemma_pow2_split(k + 1);
    lemma_slot_ok(m, k, a);
    lemma_pair_of_block(m, k, a);
    let p0 = pair_of(m, k, a);
    let lo = pair_low(m, k, p0);
    let b = buddy(m, k, a);
    assert(!is_free(m, k, a)) by {
        if is_free(m, k, a) {
            assert(blocks_disjoint(k, a, k, a));
        }
    }
    assert(is_free(m, k, b)) by {
        assert(xor_ok(m, k, p0));
    }
    assert(block_ok(m, k, b));
    let parent = if a < b {
        a
    } else {
        b
    };
    assert(parent == lo);
    assert(a == lo || b == lo);
    assert(block_ok(m, k + 1, parent)) by {
        assert(lo - m.map_from == p0 * pk2) by (nonlinear_arith)
            requires
                lo == m.map_from + p0 * (2 * pk),
                pk2 == 2 * pk,
        ;
        lemma_fundamental_div_mod_converse(lo - m.map_from, pk2, p0, 0);
        // The whole pair lies inside the span below the top order.
        let e = pow2((m.max_order - k - 1) as nat) as int;
        lemma_pow2_pos((m.max_order - k - 1) as nat);
        lemma_pow2_adds((k + 1) as nat, (m.max_order - k - 1) as nat);
        assert((p0 + 1) * pk2 <= (m.map_factor * e) * pk2) by (nonlinear_arith)
            requires
                p0 + 1 <= m.map_factor * e,
                pk2 >= 1,
        ;
        assert((m.map_factor * e) * pk2 == m.map_factor * pow2(m.max_order as nat))
            by (nonlinear_arith)
            requires
                e * pk2 == pow2(m.max_order as nat),
        ;
        assert(lo + pk2 <= map_to(m)) by (nonlinear_arith)
            requires
                lo == m.map_from + p0 * pk2,
                (p0 + 1) * pk2 <= m.map_factor * pow2(m.max_order as nat),
                map_to(m) == m.map_from + m.map_factor * pow2(m.max_order as nat),
        ;
    }
    let m1 = toggle_bit(remove_free(m, k, b), k, a);
    assert(list_at(m, k).no_duplicates());
    lemma_remove_value_membership(list_at(m, k), b);
    assert(map_to(m1) == map_to(m));
    assert(list_at(m1, k) == list_at(m, k).remove_value(b));
    assert forall|k2: int|
        m.min_order <= k2 <= m.max_order && k2 != k implies list_at(m1, k2) == list_at(
        m,
        k2,
    ) by {}
    assert(slot(m, k, b) == slot(m, k, a)) by {
        lemma_pair_of_block(m, k, b);
        lemma_pair_members(m, k, p0);
    }
    assert(m1.bits == m.bits.update(slot(m, k, b), !m.bits[slot(m, k, b)]));
    lemma_bits_update(m, m1, k, b);
    assert(pair_not_split(m1, k, pair_of(m, k, b))) by {
        lemma_pair_of_block(m, k, b);
        lemma_pair_members(m, k, p0);
        assert(!is_free(m1, k, b));
        assert(!is_free(m1, k, a));
    }
    lemma_pairs_update(m, m1, k, b);
    assert forall|k2: int, x: int|
        m1.min_order <= k2 <= m1.max_order && #[trigger] is_free(m1, k2, x) implies block_ok(
        m1,
        k2,
        x,
    ) && is_free(m, k2, x) && (k2 != k || x != b) by {
        if k2 == k {
            assert(is_free(m, k2, x));
        } else {
            assert(list_at(m1, k2) == list_at(m, k2));
            assert(is_free(m, k2, x));
        }
        assert(block_ok(m, k2, x));
    }
    assert forall|k2: int| m1.min_order <= k2 <= m1.max_order implies (#[trigger] list_at(
        m1,
        k2,
    )).no_duplicates() by {
        assert(list_at(m, k2).no_duplicates());
    }
    assert forall|k1: int, a1: int, k2: int, a2: int|
        m1.min_order <= k1 <= m1.max_order && m1.min_order <= k2 <= m1.max_order
            && #[trigger] is_free(m1, k1, a1) && #[trigger] is_free(m1, k2, a2) && (k1 != k2 || a1
            != a2) implies blocks_disjoint(k1, a1, k2, a2) by {
        assert(is_free(m, k1, a1) && is_free(m, k2, a2));
    }
    assert forall|k2: int, x: int, bb: Block|
        m1.min_order <= k2 <= m1.max_order && #[trigger] is_free(m1, k2, x)
            && #[trigger] m1.allocated.contains(bb) implies blocks_disjoint(
        k2,
        x,
        bb.order,
        bb.addr,
    ) by {
        assert(is_free(m, k2, x));
        assert(m.allocated.contains(bb));
    }
    assert forall|b1: Block, b2: Block|
        #[trigger] m1.allocated.contains(b1) && #[trigger] m1.allocated.contains(b2) && b1
            != b2 implies blocks_disjoint(b1.order, b1.addr, b2.order, b2.addr) by {
        assert(m.allocated.contains(b1) && m.allocated.contains(b2));
    }
    assert(wf(m1));
    // The parent block's range is exactly the union of the two halves.
    assert((a == lo && b == lo + pk) || (a == lo + pk && b == lo));
    assert(pk2 == 2 * pk);
    // The freshly held parent block overlaps nothing that remains tracked.
    assert forall|k2: int, x: int|
        m1.min_order <= k2 <= m1.max_order && #[trigger] is_free(m1, k2, x) implies blocks_disjoint(
        k2,
        x,
        k + 1,
        parent,
    ) by {
        assert(is_free(m, k2, x) && (k2 != k || x != b));
        assert(blocks_disjoint(k2, x, k, a));
        assert(blocks_disjoint(k2, x, k, b));
        lemma_pow2_pos(k2 as nat);
    }
    assert forall|bb: Block| #[trigger] m1.allocated.contains(bb) implies blocks_disjoint(
        bb.order,
        bb.addr,
        k + 1,
        parent,
    ) by {
        assert(m.allocated.contains(bb));
        assert(block_ok(m, bb.order, bb.addr));
        assert(blocks_disjoint(bb.order, bb.addr, k, a));
        assert(is_free(m, k, b));
        assert(blocks_disjoint(k, b, bb.order, bb.addr));
        lemma_pow2_pos(bb.order as nat);
    }
}

} // verus!
