use kernel_heap::allocator::{AllocError, Allocator, HEAP_SIZE};

const MIB: usize = 0x100000;

/// A generous stack pointer: far above everything the test allocates.
fn roomy_sp(heap_start: usize) -> usize {
    heap_start + 16 * MIB
}

#[test]
fn default_margin_is_sixteen_mib() {
    assert_eq!(HEAP_SIZE, 0x1000000);
}

#[test]
fn concrete_scenario_round_trip() {
    // reserved_margin = 1 MiB, fixed test-time stack pointer a, heap base b.
    let b: usize = 0x8000;
    let a: usize = b + 3 * MIB;
    let mut alloc = Allocator::with_margin(MIB);
    alloc.init(b);
    assert_eq!(alloc.heap_start(), b);
    assert_eq!(alloc.heap_end(), b);

    // allocate(10) rounds to 16 and returns a pointer one header past b.
    let p = alloc.allocate(10, a).unwrap();
    assert_eq!(p, b + 8);
    let h = alloc.header_at(0);
    assert_eq!(h.payload_size, 16);
    assert_eq!(h.status, 1);
    assert_eq!(alloc.heap_end(), b + 8 + 16);

    // deallocate flips the block to free, leaving size and frontier alone.
    alloc.deallocate(p);
    let h = alloc.header_at(0);
    assert_eq!(h.payload_size, 16);
    assert_eq!(h.status, 0);
    assert_eq!(alloc.heap_end(), b + 8 + 16);

    // allocating 16 again returns the identical address.
    let q = alloc.allocate(16, a).unwrap();
    assert_eq!(q, p);
    assert_eq!(alloc.heap_end(), b + 8 + 16);
}

#[test]
fn rounds_up_to_multiple_of_eight() {
    let b: usize = 0x1000;
    let sp = roomy_sp(b);
    let mut alloc = Allocator::with_margin(MIB);
    alloc.init(b);
    alloc.allocate(1, sp).unwrap();
    assert_eq!(alloc.header_at(0).payload_size, 8);
    alloc.allocate(8, sp).unwrap();
    assert_eq!(alloc.header_at(16).payload_size, 8);
    alloc.allocate(17, sp).unwrap();
    assert_eq!(alloc.header_at(32).payload_size, 24);
}

#[test]
fn zero_byte_request_gets_empty_payload() {
    let b: usize = 0x1000;
    let sp = roomy_sp(b);
    let mut alloc = Allocator::with_margin(MIB);
    alloc.init(b);
    let p = alloc.allocate(0, sp).unwrap();
    assert_eq!(p, b + 8);
    assert_eq!(alloc.header_at(0).payload_size, 0);
    assert_eq!(alloc.heap_end(), b + 8);
}

#[test]
fn split_leaves_free_remainder() {
    let b: usize = 0x2000;
    let sp = roomy_sp(b);
    let mut alloc = Allocator::with_margin(MIB);
    alloc.init(b);
    // one block of payload 48, freed again: the chain is a single free block.
    let p = alloc.allocate(48, sp).unwrap();
    alloc.deallocate(p);
    let end_before = alloc.heap_end();

    // allocating 16 from it splits: in-use 16, then free 48 - 8 - 16 = 24.
    let q = alloc.allocate(16, sp).unwrap();
    assert_eq!(q, b + 8);
    let head = alloc.header_at(0);
    assert_eq!(head.payload_size, 16);
    assert_eq!(head.status, 1);
    let rest = alloc.header_at(8 + 16);
    assert_eq!(rest.payload_size, 24);
    assert_eq!(rest.status, 0);
    assert_eq!(alloc.heap_end(), end_before);
}

#[test]
fn too_small_to_split_is_skipped() {
    let b: usize = 0x2000;
    let sp = roomy_sp(b);
    let mut alloc = Allocator::with_margin(MIB);
    alloc.init(b);
    // a free block of payload 24 cannot serve a 16-byte request: 16 would
    // leave no room for a remainder header, so the frontier grows instead.
    let p = alloc.allocate(24, sp).unwrap();
    let keep = alloc.allocate(8, sp).unwrap();
    alloc.deallocate(p);
    let q = alloc.allocate(16, sp).unwrap();
    assert_ne!(q, p);
    assert_eq!(alloc.header_at(0).status, 0);
    let _ = keep;
}

#[test]
fn coalesce_forward_when_lower_freed_last() {
    let b: usize = 0x3000;
    let sp = roomy_sp(b);
    let mut alloc = Allocator::with_margin(MIB);
    alloc.init(b);
    let p1 = alloc.allocate(16, sp).unwrap();
    let p2 = alloc.allocate(16, sp).unwrap();
    let _p3 = alloc.allocate(16, sp).unwrap();
    // free the higher-addressed block first, then its lower neighbor:
    // the second free absorbs the first, one free block spanning both.
    alloc.deallocate(p2);
    alloc.deallocate(p1);
    let merged = alloc.header_at(0);
    assert_eq!(merged.status, 0);
    assert_eq!(merged.payload_size, 16 + 8 + 16);
}

#[test]
fn no_backward_merge_when_higher_freed_last() {
    let b: usize = 0x3000;
    let sp = roomy_sp(b);
    let mut alloc = Allocator::with_margin(MIB);
    alloc.init(b);
    let p1 = alloc.allocate(16, sp).unwrap();
    let p2 = alloc.allocate(16, sp).unwrap();
    let _p3 = alloc.allocate(16, sp).unwrap();
    // free the lower-addressed block first, then the higher one: the
    // higher block's scan only looks forward, so the two free neighbors
    // stay separate.
    alloc.deallocate(p1);
    alloc.deallocate(p2);
    let lower = alloc.header_at(0);
    assert_eq!(lower.status, 0);
    assert_eq!(lower.payload_size, 16);
    let higher = alloc.header_at(8 + 16);
    assert_eq!(higher.status, 0);
    assert_eq!(higher.payload_size, 16);
}

#[test]
fn coalesce_runs_over_several_free_blocks() {
    let b: usize = 0x3000;
    let sp = roomy_sp(b);
    let mut alloc = Allocator::with_margin(MIB);
    alloc.init(b);
    let p1 = alloc.allocate(16, sp).unwrap();
    let p2 = alloc.allocate(16, sp).unwrap();
    let p3 = alloc.allocate(16, sp).unwrap();
    alloc.deallocate(p3);
    alloc.deallocate(p2);
    alloc.deallocate(p1);
    let merged = alloc.header_at(0);
    assert_eq!(merged.status, 0);
    assert_eq!(merged.payload_size, 3 * 16 + 2 * 8);
    // heap_end never retreats, even with the whole tail free.
    assert_eq!(alloc.heap_end(), b + 3 * (8 + 16));
}

#[test]
fn out_of_memory_when_frontier_would_cross_reserve() {
    let b: usize = 0x4000;
    let margin: usize = 1024;
    let mut alloc = Allocator::with_margin(margin);
    alloc.init(b);
    // ceiling = sp - margin; a 16-byte block needs b + 24 <= ceiling.
    let sp_tight = b + margin + 23;
    assert_eq!(alloc.allocate(16, sp_tight), Err(AllocError::OutOfMemory));
    assert_eq!(alloc.heap_end(), b);

    let sp_enough = b + margin + 24;
    assert_eq!(alloc.allocate(16, sp_enough), Ok(b + 8));
    assert_eq!(alloc.heap_end(), b + 24);
}

#[test]
fn failed_allocation_leaves_chain_untouched() {
    let b: usize = 0x4000;
    let margin: usize = 1024;
    let mut alloc = Allocator::with_margin(margin);
    alloc.init(b);
    let sp = b + margin + 24;
    let p = alloc.allocate(16, sp).unwrap();
    for k in 0..16 {
        alloc.write_byte(p + k, 0x5A);
    }
    let end = alloc.heap_end();
    // no free block fits and the frontier may not grow: OutOfMemory, and
    // the header chain and payload bytes are byte-for-byte unchanged.
    assert_eq!(alloc.allocate(16, sp), Err(AllocError::OutOfMemory));
    assert_eq!(alloc.heap_end(), end);
    let h = alloc.header_at(0);
    assert_eq!(h.payload_size, 16);
    assert_eq!(h.status, 1);
    for k in 0..16 {
        assert_eq!(alloc.read_byte(p + k), 0x5A);
    }
}

#[test]
fn payload_bytes_survive_other_operations() {
    let b: usize = 0x5000;
    let sp = roomy_sp(b);
    let mut alloc = Allocator::with_margin(MIB);
    alloc.init(b);
    let p1 = alloc.allocate(16, sp).unwrap();
    for k in 0..16 {
        alloc.write_byte(p1 + k, k as u8);
    }
    // allocate, write, free and split around the live block.
    let p2 = alloc.allocate(32, sp).unwrap();
    for k in 0..32 {
        alloc.write_byte(p2 + k, 0xEE);
    }
    alloc.deallocate(p2);
    let p3 = alloc.allocate(8, sp).unwrap();
    alloc.deallocate(p3);
    for k in 0..16 {
        assert_eq!(alloc.read_byte(p1 + k), k as u8);
    }
}

#[test]
fn oversized_request_fails() {
    let b: usize = 0x5000;
    let sp = roomy_sp(b);
    let mut alloc = Allocator::with_margin(MIB);
    alloc.init(b);
    assert_eq!(alloc.allocate(usize::MAX, sp), Err(AllocError::OutOfMemory));
    assert_eq!(alloc.allocate(usize::MAX - 3, sp), Err(AllocError::OutOfMemory));
    assert_eq!(alloc.heap_end(), b);
}

#[test]
fn null_pointer_free_is_a_no_op() {
    let b: usize = 0x5000;
    let sp = roomy_sp(b);
    let mut alloc = Allocator::with_margin(MIB);
    alloc.init(b);
    let p = alloc.allocate(16, sp).unwrap();
    alloc.deallocate(0);
    assert_eq!(alloc.heap_end(), b + 24);
    assert_eq!(alloc.header_at(0).status, 1);
    let _ = p;
}

#[test]
fn first_fit_prefers_earliest_block() {
    let b: usize = 0x6000;
    let sp = roomy_sp(b);
    let mut alloc = Allocator::with_margin(MIB);
    alloc.init(b);
    let p1 = alloc.allocate(16, sp).unwrap();
    let _p2 = alloc.allocate(16, sp).unwrap();
    let p3 = alloc.allocate(16, sp).unwrap();
    alloc.deallocate(p1);
    alloc.deallocate(p3);
    // two free 16-byte blocks exist; the lower-addressed one is taken.
    let q = alloc.allocate(16, sp).unwrap();
    assert_eq!(q, p1);
}
