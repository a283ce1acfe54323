use buddy_alloc::BuddyAlloc;
use buddy_alloc::Error;
use buddy_alloc::align_addr_higher;
use buddy_alloc::align_addr_lower;
use buddy_alloc::size_order;

/// All free lists, one vector of addresses per order from `min_order` up.
fn snapshot(b: &BuddyAlloc) -> Vec<Vec<usize>> {
    let mut all: Vec<Vec<usize>> = Vec::new();
    let mut k = b.min_order();
    while k <= b.max_order() {
        let mut list: Vec<usize> = Vec::new();
        let n = b.free_list_len(k);
        let mut i = 0;
        while i < n {
            list.push(b.free_list_entry(k, i));
            i += 1;
        }
        all.push(list);
        k += 1;
    }
    all
}

#[test]
fn order_selection_exact_values() {
    assert_eq!(size_order(1), 0);
    assert_eq!(size_order(2), 1);
    assert_eq!(size_order(3), 2);
    assert_eq!(size_order(4), 2);
    assert_eq!(size_order(15), 4);
    assert_eq!(size_order(16), 4);
    assert_eq!(size_order(17), 5);
    assert_eq!(size_order(4096), 12);
}

#[test]
fn order_selection_bounds() {
    // For every size, 2^(k-1) < size <= 2^k.
    for size in 1usize..=4100 {
        let k = size_order(size);
        assert!(size as u128 <= 1u128 << k);
        if k >= 1 {
            assert!((1u128 << (k - 1)) < size as u128);
        } else {
            assert_eq!(size, 1);
        }
    }
}

#[test]
fn alignment_helpers() {
    assert_eq!(align_addr_lower(0x1234, 4), 0x1230);
    assert_eq!(align_addr_lower(0x1230, 4), 0x1230);
    assert_eq!(align_addr_higher(0x1234, 4), 0x1240);
    assert_eq!(align_addr_higher(0x1230, 4), 0x1230);
    assert_eq!(align_addr_lower(0x1fff, 12), 0x1000);
    assert_eq!(align_addr_higher(0x1001, 12), 0x2000);
    assert_eq!(align_addr_lower(7, 0), 7);
    assert_eq!(align_addr_higher(7, 0), 7);
}

#[test]
fn min_order_too_low() {
    assert_eq!(BuddyAlloc::new(3, 0x1000, 0x1000).err(), Some(Error::MinOrderTooLow));
    assert_eq!(BuddyAlloc::new(0, 0x1000, 0x1000).err(), Some(Error::MinOrderTooLow));
    assert!(BuddyAlloc::new(4, 0x1000, 0x1000).is_ok());
}

#[test]
fn not_enough_space_for_bookkeeping() {
    // A 32-byte region cannot host a 16-byte link plus head table and bitmap.
    assert_eq!(
        BuddyAlloc::new(4, 0x1000, 0x20).err(),
        Some(Error::NotEnoughSpaceForBookkeeping)
    );
}

#[test]
fn invalid_order() {
    let mut b = BuddyAlloc::new(4, 0x1000, 0x1000).unwrap();
    assert_eq!(b.allocate(3).err(), Some(Error::InvalidOrder));
    assert_eq!(b.allocate(13).err(), Some(Error::InvalidOrder));
    assert_eq!(b.free(3, 0x1000).err(), Some(Error::InvalidOrder));
    assert_eq!(b.free(13, 0x1000).err(), Some(Error::InvalidOrder));
}

// An aligned 4 KiB region: one top-level block of order 12 at 0x1000.
#[test]
fn aligned_region_scenario() {
    let mut b = BuddyAlloc::new(4, 0x1000, 0x1000).unwrap();
    assert_eq!(b.min_order(), 4);
    assert_eq!(b.max_order(), 12);
    assert_eq!(b.map_from_addr(), 0x1000);
    assert_eq!(b.allocate(12), Ok(0x1000));
    assert_eq!(b.allocate(12), Err(Error::OutOfMemory));
    assert_eq!(b.free(12, 0x1000), Ok(()));
    assert_eq!(b.allocate(12), Ok(0x1000));
}

// A misaligned region: every byte of the region rounded inward to 16-byte
// granularity is covered by exactly one free block after initialization, and
// small fragments appear near the low edge beside the large central blocks.
#[test]
fn misaligned_region_scenario() {
    let b = BuddyAlloc::new(4, 0x1008, 0x1ff0).unwrap();
    assert_eq!(b.max_order(), 11);
    let lo = 0x1010usize;
    let hi = 0x2ff0usize;
    let mut covered = vec![0u32; hi - lo];
    for (i, list) in snapshot(&b).iter().enumerate() {
        let order = b.min_order() as usize + i;
        for &a in list {
            assert!(a >= lo && a + (1 << order) <= hi);
            for x in a..a + (1 << order) {
                covered[x - lo] += 1;
            }
        }
    }
    assert!(covered.iter().all(|&c| c == 1));
    // A 16-byte fragment sits at the low edge.
    assert!(b.free_list_len(4) >= 1);
    assert_eq!(b.free_list_entry(4, 0), 0x1010);
}

// Exhaustion: the number of minimum-order allocations before OutOfMemory is
// the usable capacity divided by the minimum block size.
#[test]
fn exhaustion_count() {
    let mut b = BuddyAlloc::new(4, 0x1000, 0x1000).unwrap();
    let mut count = 0usize;
    let mut got: Vec<usize> = Vec::new();
    loop {
        match b.allocate(4) {
            Ok(a) => {
                got.push(a);
                count += 1;
            },
            Err(e) => {
                assert_eq!(e, Error::OutOfMemory);
                break;
            },
        }
        assert!(count <= 4096);
    }
    assert_eq!(count, 0x1000 / 16);
    // Addresses are 16-aligned, in range, and pairwise distinct.
    let mut sorted = got.clone();
    sorted.sort();
    for w in sorted.windows(2) {
        assert!(w[0] + 16 <= w[1]);
    }
    for &a in &got {
        assert!(a % 16 == 0 && (0x1000..0x2000).contains(&a));
    }
}

// Split/merge symmetry: allocate immediately followed by free restores the
// free lists exactly, from a non-trivial starting state.
#[test]
fn allocate_free_roundtrip() {
    let mut b = BuddyAlloc::new(4, 0x1000, 0x1000).unwrap();
    let x = b.allocate(5).unwrap();
    let _y = b.allocate(7).unwrap();
    b.free(5, x).unwrap();
    for order in 4..=11 {
        let before = snapshot(&b);
        let a = b.allocate(order).unwrap();
        b.free(order, a).unwrap();
        assert_eq!(before, snapshot(&b));
    }
}

// Full coalescence: after every allocated block is released, the state equals
// the state observed right after initialization.
#[test]
fn full_coalescence() {
    let mut b = BuddyAlloc::new(4, 0x1000, 0x1000).unwrap();
    let initial = snapshot(&b);
    let mut blocks: Vec<(u8, usize)> = Vec::new();
    for order in [4u8, 4, 5, 6, 4, 8, 10, 5, 7] {
        blocks.push((order, b.allocate(order).unwrap()));
    }
    // Release in allocation order (not reverse), exercising buddy merges.
    for &(order, addr) in &blocks {
        assert_eq!(b.free(order, addr), Ok(()));
    }
    assert_eq!(snapshot(&b), initial);
    assert_eq!(b.free_list_len(12), 1);
    assert_eq!(b.free_list_entry(12, 0), 0x1000);
}

// Coalescing stops at the top order even when both top buddies are free.
#[test]
fn misaligned_region_exercises_top_pairs() {
    let mut b = BuddyAlloc::new(4, 0x1008, 0x1ff0).unwrap();
    let initial = snapshot(&b);
    // The central run holds two top-order (2 KiB) blocks.
    assert_eq!(b.free_list_len(11), 2);
    let a1 = b.allocate(11).unwrap();
    let a2 = b.allocate(11).unwrap();
    assert_ne!(a1, a2);
    b.free(11, a2).unwrap();
    b.free(11, a1).unwrap();
    assert_eq!(snapshot(&b), initial);
}
