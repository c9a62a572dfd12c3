use lab_allocator::{AllocError, LabByteAllocator};

// Region geometry used throughout: a 16 KiB region at a 256-aligned base
// keeps 62 blocks (15872 payload bytes) after the footer and bitmap area.
const BASE: usize = 1 << 20;
const REGION: usize = 16 * 1024;
const PAYLOAD: usize = 15872;

fn fresh() -> LabByteAllocator {
    let mut a = LabByteAllocator::new();
    a.init(BASE, REGION);
    a
}

// A region too small for its bookkeeping is rejected and nothing changes.
#[test]
fn tiny_region_rejected() {
    let mut a = LabByteAllocator::new();
    assert_eq!(a.add_memory(BASE, 64), Err(AllocError::NoMemory));
    assert_eq!(a.total_bytes(), 0);
    assert_eq!(a.available_bytes(), 0);
    assert_eq!(a.allocate(1, 1), Err(AllocError::NoMemory));
}

// Counters after adding one 16 KiB region: exact values.
#[test]
fn region_counters() {
    let a = fresh();
    assert_eq!(a.total_bytes(), REGION);
    assert_eq!(a.available_bytes(), PAYLOAD);
    // the footer and bitmap overhead counts as used
    assert_eq!(a.total_bytes() - a.available_bytes(), 512);
}

// One small allocation takes one block; freeing it restores the counters.
#[test]
fn single_alloc_dealloc() {
    let mut a = fresh();
    let used0 = a.used_bytes();
    let p = a.allocate(128, 8).unwrap();
    assert_eq!(a.used_bytes(), used0 + 256);
    assert_eq!(a.dealloc(p, 128, 8), Ok(()));
    assert_eq!(a.used_bytes(), used0);
}

// An alignment above the block size is honoured inside the payload.
#[test]
fn large_alignment() {
    let mut a = fresh();
    let used0 = a.used_bytes();
    let p = a.allocate(1, 1024).unwrap();
    assert_eq!(p % 1024, 0);
    assert!(BASE <= p && p + 1 < BASE + PAYLOAD);
    assert_eq!(a.used_bytes(), used0 + 256);

    let q = a.allocate(1, 4096).unwrap();
    assert_eq!(q % 4096, 0);
    assert!(BASE <= q && q + 1 < BASE + PAYLOAD);
}

// An alignment no free run can satisfy is refused, on either side.
#[test]
fn alignment_out_of_reach() {
    let mut a = fresh();
    assert_eq!(a.allocate(1, 1 << 30), Err(AllocError::NoMemory));
    assert_eq!(a.allocate(1, 1 << 30), Err(AllocError::NoMemory));
    assert_eq!(a.available_bytes(), PAYLOAD);
}

// Consecutive one-block requests land alternately at the low and the high
// end of the free area.
#[test]
fn alternating_sides() {
    let mut a = fresh();
    let mut got = Vec::new();
    for _ in 0..10 {
        got.push(a.allocate(256, 1).unwrap());
    }
    // first request leftmost, second rightmost
    assert_eq!(got[0], BASE);
    assert_eq!(got[1], BASE + PAYLOAD - 256);
    for k in 0..4 {
        assert!(got[2 * k] < got[2 * k + 2]); // low end grows upward
        assert!(got[2 * k + 1] > got[2 * k + 3]); // high end grows downward
    }
    for k in 0..5 {
        assert!(got[2 * k] < got[2 * k + 1]);
    }
}

// A request exactly filling the chunk succeeds once, fails until freed,
// then succeeds again.
#[test]
fn exact_fill() {
    let mut a = fresh();
    let p = a.allocate(PAYLOAD, 1).unwrap();
    assert_eq!(p, BASE);
    assert_eq!(a.available_bytes(), 0);
    assert_eq!(a.allocate(PAYLOAD, 1), Err(AllocError::NoMemory));
    assert_eq!(a.dealloc(p, PAYLOAD, 1), Ok(()));
    assert_eq!(a.available_bytes(), PAYLOAD);
    assert!(a.allocate(PAYLOAD, 1).is_ok());
}

// Exhaustion: one allocation per block, then NoMemory.
#[test]
fn exhaustion() {
    let mut a = fresh();
    for _ in 0..PAYLOAD / 256 {
        assert!(a.allocate(1, 1).is_ok());
    }
    assert_eq!(a.allocate(1, 1), Err(AllocError::NoMemory));
}

// Freeing and repeating the same request leaves avail_bytes unchanged.
#[test]
fn realloc_same_avail() {
    let mut a = fresh();
    let p = a.allocate(100, 8).unwrap();
    let avail1 = a.available_bytes();
    a.dealloc(p, 100, 8).unwrap();
    assert_eq!(a.available_bytes(), PAYLOAD);
    let _q = a.allocate(100, 8).unwrap();
    assert_eq!(a.available_bytes(), avail1);
}

// Balanced allocate/free pairs do not leak.
#[test]
fn balanced_pairs_no_leak() {
    let mut a = fresh();
    for _ in 0..20 {
        let p = a.allocate(300, 16).unwrap();
        a.dealloc(p, 300, 16).unwrap();
        assert_eq!(a.available_bytes(), PAYLOAD);
    }
    assert_eq!(a.total_bytes(), REGION);
}

// Deallocating an address outside every chunk is refused.
#[test]
fn dealloc_unknown_pointer() {
    let mut a = LabByteAllocator::new();
    assert_eq!(a.dealloc(0x1000, 16, 1), Err(AllocError::NotAllocated));
    assert_eq!(a.total_bytes(), 0);
    assert_eq!(a.available_bytes(), 0);
}

// Two chunks: after freeing a block in the older one, a one-block request
// is served from one of the two payloads and the counters agree.
#[test]
fn multi_chunk_dispatch() {
    let base2: usize = 2 << 20;
    let mut a = fresh();
    let mut old_ptrs = Vec::new();
    for _ in 0..PAYLOAD / 256 {
        old_ptrs.push(a.allocate(256, 1).unwrap());
    }
    assert_eq!(a.available_bytes(), 0);
    a.add_memory(base2, REGION).unwrap();
    assert_eq!(a.total_bytes(), 2 * REGION);
    assert_eq!(a.available_bytes(), PAYLOAD);
    a.dealloc(old_ptrs[5], 256, 1).unwrap();
    assert_eq!(a.available_bytes(), PAYLOAD + 256);
    let p = a.allocate(1, 1).unwrap();
    assert!(
        (BASE <= p && p < BASE + PAYLOAD) || (base2 <= p && p < base2 + PAYLOAD)
    );
    assert_eq!(a.available_bytes(), PAYLOAD);
}
