//! Alignment arithmetic, size-to-order conversion and the error taxonomy.

use vstd::prelude::*;

verus! {

use vstd::arithmetic::div_mod::lemma_div_by_multiple;
use vstd::arithmetic::div_mod::lemma_fundamental_div_mod;
use vstd::arithmetic::power2::lemma2_to64;
use vstd::arithmetic::power2::lemma_pow2_adds;
use vstd::arithmetic::power2::lemma_pow2_pos;
use vstd::arithmetic::power2::lemma_pow2_strictly_increases;
use vstd::arithmetic::power2::pow2;

/// The failure kinds returned by the engine's fallible operations.
#[derive(Clone, Copy, Debug, PartialEq, Eq, Structural)]
pub enum Error {
    /// `2^min_order` is too small to host one free-list link.
    MinOrderTooLow,
    /// The region cannot hold both its own bookkeeping and one block.
    NotEnoughSpaceForBookkeeping,
    /// An order outside the allocator's `[min_order, max_order]` range.
    InvalidOrder,
    /// No free block of sufficient size exists.
    OutOfMemory,
}

/// The position of the highest set bit: `floor(log2(n))` for `n >= 1`.
pub open spec fn spec_log2(n: int) -> int
    decreases n,
{
    if n < 2 {
        0
    } else {
        1 + spec_log2(n / 2)
    }
}

/// Largest multiple of `2^order` that is at most `addr`.
pub open spec fn align_down(addr: int, order: nat) -> int {
    (addr / pow2(order) as int) * pow2(order) as int
}

/// Smallest multiple of `2^order` that is at least `addr`.
pub open spec fn align_up(addr: int, order: nat) -> int {
    align_down(addr + pow2(order) - 1, order)
}

/// `align_down` returns a multiple of `2^order` within `(addr - 2^order, addr]`.
pub proof fn lemma_align_down(addr: int, order: nat)
    requires
        addr >= 0,
    ensures
        align_down(addr, order) % pow2(order) as int == 0,
        addr - pow2(order) < align_down(addr, order) <= addr,
{
    let p = pow2(order) as int;
    lemma_pow2_pos(order);
    lemma_fundamental_div_mod(addr, p);
    lemma_div_by_multiple(addr / p, p);
    assert((addr / p) * p % p == 0) by {
        lemma_fundamental_div_mod((addr / p) * p, p);
    }
}

/// `align_up` returns a multiple of `2^order` within `[addr, addr + 2^order)`.
pub proof fn lemma_align_up(addr: int, order: nat)
    requires
        addr >= 0,
    ensures
        align_up(addr, order) % pow2(order) as int == 0,
        addr <= align_up(addr, order) < addr + pow2(order),
{
    let p = pow2(order) as int;
    lemma_pow2_pos(order);
    lemma_align_down(addr + p - 1, order);
    let u = align_down(addr + p - 1, order);
    assert(u > addr - 1) by {
        if u <= addr - 1 {
            assert(u % p == 0);
            assert((addr + p - 1) - p < u);
        }
    }
}

/// Clears the low `order` bits of `addr`: rounds down to a `2^order` boundary.
pub fn align_addr_lower(addr: usize, order: u8) -> (r: usize)
    requires
        pow2(order as nat) <= usize::MAX,
    ensures
        r == align_down(addr as int, order as nat),
{
    let p = pow2_exec(order);
    proof {
        lemma_pow2_pos(order as nat);
        lemma_align_down(addr as int, order as nat);
    }
    (addr / p) * p
}

/// Rounds `addr` up to a `2^order` boundary.
pub fn align_addr_higher(addr: usize, order: u8) -> (r: usize)
    requires
        pow2(order as nat) <= usize::MAX,
        addr + pow2(order as nat) - 1 <= usize::MAX,
    ensures
        r == align_up(addr as int, order as nat),
{
    let p = pow2_exec(order);
    proof {
        lemma_pow2_pos(order as nat);
        lemma_align_down((addr + p - 1) as int, order as nat);
    }
    align_addr_lower(addr + (p - 1), order)
}

/// The smallest order `k` with `2^k >= size`; exact powers of two map to
/// themselves, any other size rounds up to the next power of two.
pub fn size_order(size: usize) -> (r: u8)
    requires
        size >= 1,
    ensures
        size <= pow2(r as nat),
        r >= 1 ==> pow2((r - 1) as nat) < size,
        r <= 64,
{
    let order = log2_floor(size);
    let p = pow2_exec(order);
    if size == p {
        proof {
            if order >= 1 {
                lemma_pow2_strictly_increases((order - 1) as nat, order as nat);
            }
        }
        order
    } else {
        order + 1
    }
}

/// `2^k`, computed by repeated doubling.
pub(crate) fn pow2_exec(k: u8) -> (r: usize)
    requires
        pow2(k as nat) <= usize::MAX,
    ensures
        r == pow2(k as nat),
        r >= 1,
{
    let mut i: u8 = 0;
    let mut r: usize = 1;
    proof {
        lemma2_to64();
    }
    while i < k
        invariant
            i <= k,
            r == pow2(i as nat),
            pow2(k as nat) <= usize::MAX,
        decreases k - i,
    {
        proof {
            lemma_pow2_adds(i as nat, 1);
            lemma2_to64();
            if i + 1 < k {
                lemma_pow2_strictly_increases((i + 1) as nat, k as nat);
            }
        }
        r = r * 2;
        i = i + 1;
    }
    proof {
        lemma_pow2_pos(k as nat);
    }
    r
}

/// The position of the highest set bit of `size`.
pub(crate) fn log2_floor(size: usize) -> (r: u8)
    requires
        size >= 1,
    ensures
        pow2(r as nat) <= size < pow2(r as nat + 1),
        r < 64,
        r as int == spec_log2(size as int),
{
    let mut r: u8 = 0;
    let mut s: usize = size;
    proof {
        lemma2_to64();
    }
    while s >= 2
        invariant
            1 <= s,
            size >= 1,
            pow2(r as nat) * s <= size,
            size < pow2(r as nat) * (s + 1),
            r < 64,
            spec_log2(size as int) == r + spec_log2(s as int),
        decreases s,
    {
        let ghost p = pow2(r as nat) as int;
        let ghost si = s as int;
        proof {
            lemma_pow2_pos(r as nat);
            lemma_pow2_adds(r as nat, 1);
            lemma2_to64();
            lemma_fundamental_div_mod(si, 2);
            assert(pow2(r as nat + 1) * (si / 2) <= p * si) by (nonlinear_arith)
                requires
                    pow2(r as nat + 1) == 2 * p,
                    2 * (si / 2) <= si,
                    p >= 1,
            ;
            assert(p * (si + 1) <= pow2(r as nat + 1) * (si / 2 + 1)) by (nonlinear_arith)
                requires
                    pow2(r as nat + 1) == 2 * p,
                    si + 1 <= 2 * (si / 2) + 2,
                    p >= 1,
            ;
            // A power of two of order 64 or more would not fit in usize.
            assert(pow2(r as nat + 1) <= p * si) by (nonlinear_arith)
                requires
                    pow2(r as nat + 1) == 2 * p,
                    si >= 2,
                    p >= 1,
            ;
            if r + 1 >= 64 {
                lemma2_to64_rest_helper();
                if r as nat + 1 > 64 {
                    lemma_pow2_strictly_increases(64, r as nat + 1);
                }
                assert(false);
            }
        }
        s = s / 2;
        r = r + 1;
    }
    proof {
        lemma_pow2_pos(r as nat);
        lemma_pow2_adds(r as nat, 1);
        lemma2_to64();
    }
    r
}

/// `2^64` exceeds `usize::MAX`.
pub(crate) proof fn lemma2_to64_rest_helper()
    ensures
        pow2(64) > usize::MAX,
{
    vstd::arithmetic::power2::lemma2_to64_rest();
    lemma2_to64();
}

/// Two multiples of `d` within distance `d` of each other are equal.
pub proof fn lemma_aligned_unique(y1: int, y2: int, d: int)
    requires
        d >= 1,
        y1 % d == 0,
        y2 % d == 0,
        y1 - d < y2 < y1 + d,
    ensures
        y1 == y2,
{
    lemma_fundamental_div_mod(y1, d);
    lemma_fundamental_div_mod(y2, d);
    let q1 = y1 / d;
    let q2 = y2 / d;
    assert(q1 == q2) by (nonlinear_arith)
        requires
            y1 == d * q1,
            y2 == d * q2,
            y1 - d < y2 < y1 + d,
            d >= 1,
    ;
}

/// A multiple of a higher power of two is a multiple of a lower one, and its
/// remainder by the next power is either `0` or that lower power.
pub proof fn lemma_pow2_mod_divides(x: int, a: nat, b: nat)
    requires
        x >= 0,
        a <= b,
        x % pow2(b) as int == 0,
    ensures
        x % pow2(a) as int == 0,
{
    lemma_pow2_pos(a);
    lemma_pow2_pos(b);
    lemma_pow2_adds(a, (b - a) as nat);
    lemma_fundamental_div_mod(x, pow2(b) as int);
    let c = x / pow2(b) as int;
    assert(x == (c * pow2((b - a) as nat)) * pow2(a) as int) by (nonlinear_arith)
        requires
            x == c * pow2(b) as int,
            pow2(b) == pow2(a) * pow2((b - a) as nat),
    ;
    lemma_fundamental_div_mod_converse_helper(x, pow2(a) as int, c * pow2((b - a) as nat) as int);
}

/// `x == q * d` with `d > 0` gives `x % d == 0`.
proof fn lemma_fundamental_div_mod_converse_helper(x: int, d: int, q: int)
    requires
        d >= 1,
        x == q * d,
    ensures
        x % d == 0,
{
    vstd::arithmetic::div_mod::lemma_fundamental_div_mod_converse(x, d, q, 0);
}

/// How rounding up to the next coarser power of two moves the result: not at
/// all when the finer result is already coarsely aligned, else by exactly one
/// finer block.
pub proof fn lemma_align_up_succ(addr: int, j: nat)
    requires
        addr >= 0,
    ensures
        ({
            let u = align_up(addr, j);
            let u2 = align_up(addr, (j + 1) as nat);
            let p = pow2(j) as int;
            &&& (u2 == u || u2 == u + p)
            &&& (u % (2 * p) == 0 ==> u2 == u)
            &&& (u % (2 * p) != 0 ==> u % (2 * p) == p && u2 == u + p)
        }),
{
    let u = align_up(addr, j);
    let u2 = align_up(addr, (j + 1) as nat);
    let p = pow2(j) as int;
    let p2 = pow2((j + 1) as nat) as int;
    lemma_pow2_pos(j);
    lemma_pow2_pos((j + 1) as nat);
    lemma_pow2_adds(1, j);
    assert(p2 == 2 * p) by {
        lemma2_to64();
    }
    lemma_align_up(addr, j);
    lemma_align_up(addr, (j + 1) as nat);
    lemma_fundamental_div_mod(u, p);
    lemma_fundamental_div_mod(u / p, 2);
    let e = u / p;
    assert(u == (e / 2) * (2 * p) + (e % 2) * p) by (nonlinear_arith)
        requires
            u == p * e,
            e == 2 * (e / 2) + e % 2,
    ;
    assert(0 <= (e % 2) * p < 2 * p) by (nonlinear_arith)
        requires
            p >= 1,
            0 <= e % 2 < 2,
    ;
    vstd::arithmetic::div_mod::lemma_fundamental_div_mod_converse(u, 2 * p, e / 2, (e % 2) * p);
    assert(u % (2 * p) == (e % 2) * p);
    let c = if u % (2 * p) == 0 {
        u
    } else {
        u + p
    };
    assert(c % p2 == 0) by {
        if u % (2 * p) != 0 {
            assert(u + p == (e / 2 + 1) * (2 * p)) by (nonlinear_arith)
                requires
                    u == (e / 2) * (2 * p) + p,
            ;
            lemma_fundamental_div_mod_converse_helper(u + p, 2 * p, e / 2 + 1);
        }
    }
    assert(addr <= c < addr + p2);
    lemma_aligned_unique(u2, c, p2);
}

/// How rounding down to the next coarser power of two moves the result.
pub proof fn lemma_align_down_succ(addr: int, j: nat)
    requires
        addr >= 0,
    ensures
        ({
            let d = align_down(addr, j);
            let d2 = align_down(addr, (j + 1) as nat);
            let p = pow2(j) as int;
            &&& (d2 == d || d == d2 + p)
            &&& d2 % (2 * p) == 0
        }),
{
    let d = align_down(addr, j);
    let d2 = align_down(addr, (j + 1) as nat);
    let p = pow2(j) as int;
    let p2 = pow2((j + 1) as nat) as int;
    lemma_pow2_pos(j);
    lemma_pow2_pos((j + 1) as nat);
    lemma_pow2_adds(1, j);
    assert(p2 == 2 * p) by {
        lemma2_to64();
    }
    lemma_align_down(addr, j);
    lemma_align_down(addr, (j + 1) as nat);
    lemma_fundamental_div_mod(d, p);
    lemma_fundamental_div_mod(d / p, 2);
    let e = d / p;
    assert(d == (e / 2) * (2 * p) + (e % 2) * p) by (nonlinear_arith)
        requires
            d == p * e,
            e == 2 * (e / 2) + e % 2,
    ;
    assert(0 <= (e % 2) * p < 2 * p) by (nonlinear_arith)
        requires
            p >= 1,
            0 <= e % 2 < 2,
    ;
    vstd::arithmetic::div_mod::lemma_fundamental_div_mod_converse(d, 2 * p, e / 2, (e % 2) * p);
    assert(d % (2 * p) == (e % 2) * p);
    let c = if d % (2 * p) == 0 {
        d
    } else {
        d - p
    };
    assert(c % p2 == 0) by {
        if d % (2 * p) != 0 {
            assert(d - p == (e / 2) * (2 * p)) by (nonlinear_arith)
                requires
                    d == (e / 2) * (2 * p) + p,
            ;
            lemma_fundamental_div_mod_converse_helper(d - p, 2 * p, e / 2);
        }
    }
    assert(addr - p2 < c <= addr);
    lemma_aligned_unique(d2, c, p2);
}

} // verus!
